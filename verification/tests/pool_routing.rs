use rmcp::model::{ReadResourceResult, ResourceContents};
use labby_gateway::exposure::ExposurePolicy;
use labby_gateway::gateway_docs::{
    capability_schema_error_kind, gateway_server_schema, gateway_server_schema_allowed,
    gateway_servers_doc, gateway_servers_doc_allowed, gateway_synthetic_resources,
    gateway_synthetic_resources_allowed, schema_error_message_for, CapabilityErrorClass,
};
use labby_gateway::resource_catalog::{
    apply_resource_list_failure, apply_resource_list_success, cached_upstream_resource_uris,
    apply_observed_resource_list_failure, apply_observed_resource_list_success,
    clear_skills_listing, observed_listing_applies, record_skills_listing, ResourceSnapshotWarmup,
};
use labby_gateway::resources::{
    exact_read_admission, exact_read_health_update, exact_read_result, gateway_read_target,
    cached_upstream_resources_with_provenance_allowed, exact_read_applies,
    normalize_resource_result_uri, parse_gateway_resource_uri,
    resource_read_in_scope, rewrite_resource_uri, subject_read_target, subject_resource_cache_usable,
    ExactResourceReadError, HealthUpdate, ReadOutcome, ResourceRow, SubjectReadError,
};
use labby_gateway::tool_catalog::{
    cached_upstream_summary, find_tool, find_tool_allowed, healthy_tool_names, healthy_tools,
    routable_upstream_names, subject_configs_allowed, subject_scoped_upstream_tools_allowed,
    subject_scoped_upstream_tools_allowed_bounded, tool_catalog_bytes, tool_exposure_rows,
    tool_schema, upstream_allowed, ToolDescriptor, UpstreamCapability, UpstreamConfig, UpstreamEntry,
    UpstreamTool,
};

fn descriptor(name: &str) -> ToolDescriptor {
    ToolDescriptor {
        name: name.to_string(),
        description: Some(format!("{name} tool")),
        serialized_bytes: 10,
        has_input_schema: true,
        ui_resource_uri: None,
        openai_output_template: None,
        ui_visible_to_app: false,
        openai_widget_accessible: false,
    }
}

fn entry(name: &str, tools: &[&str], routable: bool) -> UpstreamEntry {
    UpstreamEntry {
        name: name.to_string(),
        tools_routable: routable,
        resources_routable: routable,
        prompts_routable: routable,
        skills_routable: routable,
        proxy_resources: true,
        proxy_skills: true,
        exposure_policy: ExposurePolicy::All,
        resource_exposure_policy: ExposurePolicy::All,
        skill_exposure_policy: ExposurePolicy::All,
        tools: tools
            .iter()
            .map(|t| UpstreamTool { upstream_name: name.to_string(), tool: descriptor(t) })
            .collect(),
        resource_uris: Vec::new(),
        resource_count: 0,
        prompt_count: 3,
        skill_count: 0,
        skill_names: Vec::new(),
        supports_skills: None,
    }
}

fn catalog() -> Vec<UpstreamEntry> {
    vec![entry("alpha", &["search", "fetch"], true), entry("beta", &["delete"], false), entry("gamma", &["list"], true)]
}

fn config(name: &str, expose_resources: Option<Vec<&str>>) -> UpstreamConfig {
    UpstreamConfig {
        name: name.to_string(),
        enabled: true,
        oauth: true,
        proxy_resources: true,
        proxy_prompts: true,
        proxy_skills: true,
        expose_tools: None,
        expose_resources: expose_resources.map(|v| v.into_iter().map(String::from).collect()),
        expose_prompts: None,
        expose_skills: None,
    }
}

#[test]
fn healthy_tools_are_sorted_and_skip_unroutable_upstreams() {
    let tools = healthy_tools(&catalog(), usize::MAX);
    let names: Vec<&str> = tools.iter().map(|t| t.tool.name.as_str()).collect();
    assert_eq!(names, vec!["fetch", "list", "search"]);
    assert_eq!(healthy_tool_names(&catalog()), vec!["fetch", "list", "search"]);
}

#[test]
fn healthy_tools_stop_at_the_byte_budget() {
    let first = UpstreamTool { upstream_name: "alpha".to_string(), tool: descriptor("fetch") };
    assert_eq!(tool_catalog_bytes(&first), 15);
    let tools = healthy_tools(&catalog(), 30);
    assert_eq!(tools.len(), 2);
    assert!(healthy_tools(&catalog(), 14).is_empty());
}

#[test]
fn tool_owner_is_the_first_routable_exposing_upstream() {
    let owner = find_tool(&catalog(), "search").expect("alpha serves search");
    assert_eq!(owner.0, "alpha");
    assert!(find_tool(&catalog(), "delete").is_none());
    let scope = vec!["gamma".to_string()];
    assert!(find_tool_allowed(&catalog(), "search", Some(&scope)).is_none());
    assert!(upstream_allowed(Some(&scope), "gamma"));
    assert!(!upstream_allowed(Some(&scope), "alpha"));
    assert!(upstream_allowed(None, "alpha"));
}

#[test]
fn exposure_rows_list_hidden_tools_too() {
    let mut cat = catalog();
    cat[0].exposure_policy = ExposurePolicy::from_patterns(vec!["sea*".to_string()]).expect("policy");
    let rows = tool_exposure_rows(&cat, "alpha");
    assert_eq!(rows.len(), 2);
    assert_eq!(rows[0].name, "fetch");
    assert!(!rows[0].exposed);
    assert_eq!(rows[1].name, "search");
    assert!(rows[1].exposed);
    assert_eq!(rows[1].matched_by.as_deref(), Some("sea*"));
    assert!(tool_exposure_rows(&cat, "nobody").is_empty());

    let summary = cached_upstream_summary(&cat, "alpha").expect("summary");
    assert_eq!(summary.discovered_tool_count, 2);
    assert_eq!(summary.exposed_tool_count, 1);
    assert!(cached_upstream_summary(&cat, "nobody").is_none());
}

#[test]
fn routable_names_are_sorted_and_resource_upstreams_are_consulted() {
    let names = routable_upstream_names(&catalog(), UpstreamCapability::Tools, &Vec::new());
    assert_eq!(names, vec!["alpha".to_string(), "gamma".to_string()]);
    let resource_upstreams = vec!["gamma".to_string(), "beta".to_string()];
    let names = routable_upstream_names(&catalog(), UpstreamCapability::Resources, &resource_upstreams);
    assert_eq!(names, vec!["gamma".to_string()]);
}

#[test]
fn gateway_documents_list_registered_upstreams_in_order() {
    let mut cat = catalog();
    cat.reverse();
    let rows = gateway_servers_doc_allowed(&cat, None);
    let names: Vec<&str> = rows.iter().map(|r| r.name.as_str()).collect();
    assert_eq!(names, vec!["alpha", "beta", "gamma"]);
    assert_eq!(rows[0].tool_count, 2);
    assert_eq!(rows[0].prompt_count, 3);
    assert!(!rows[1].tools_routable);

    let scope = vec!["beta".to_string()];
    let schema = gateway_server_schema_allowed(&cat, "beta", Some(&scope)).expect("registered");
    assert_eq!(schema.len(), 1);
    assert!(gateway_server_schema_allowed(&cat, "alpha", Some(&scope)).is_none());
    assert!(gateway_server_schema_allowed(&cat, "nobody", None).is_none());

    let resources = gateway_synthetic_resources_allowed(&cat, Some(&vec!["gamma".to_string(), "alpha".to_string()]));
    let uris: Vec<&str> = resources.iter().map(|r| r.uri.as_str()).collect();
    assert_eq!(
        uris,
        vec!["lab://gateway/servers", "lab://gateway/alpha/schema", "lab://gateway/gamma/schema"]
    );
    assert_eq!(resources[1].name, "gateway/alpha/schema");
    assert_eq!(resources[1].description, "Tool schemas for upstream `alpha`");
}

#[test]
fn schema_discovery_errors_are_classified() {
    assert_eq!(capability_schema_error_kind(CapabilityErrorClass::Timeout, "x"), "timeout");
    assert_eq!(capability_schema_error_kind(CapabilityErrorClass::Protocol, "x"), "decode_error");
    assert_eq!(capability_schema_error_kind(CapabilityErrorClass::Mcp, "auth_required"), "auth_required");
    assert_eq!(capability_schema_error_kind(CapabilityErrorClass::Other, "rate_limited"), "upstream_error");
    assert_eq!(capability_schema_error_kind(CapabilityErrorClass::Transport, "rate_limited"), "rate_limited");
    assert_eq!(
        capability_schema_error_kind(CapabilityErrorClass::InputRequiredRoundsExceeded, "x"),
        "confirmation_required"
    );
    assert_eq!(
        schema_error_message_for("linear", "boom"),
        "subject-scoped discovery for upstream `linear` failed: boom"
    );
}

#[test]
fn gateway_resource_uris_round_trip() {
    let uri = rewrite_resource_uri("file:///tmp/x", "alpha");
    assert_eq!(uri, "lab://upstream/alpha/file:///tmp/x");
    assert_eq!(
        parse_gateway_resource_uri(&uri),
        Some(("alpha".to_string(), "file:///tmp/x".to_string()))
    );
    assert_eq!(parse_gateway_resource_uri("file:///tmp/x"), None);
    let scope = vec!["alpha".to_string()];
    assert!(resource_read_in_scope(&uri, Some(&scope)));
    assert!(!resource_read_in_scope("lab://upstream/beta/x", Some(&scope)));
    assert!(resource_read_in_scope("anything", None));
}

#[test]
fn catalog_reads_need_a_configured_routable_exposing_upstream() {
    let mut cat = catalog();
    cat[0].resource_exposure_policy =
        ExposurePolicy::from_patterns(vec!["file://*".to_string()]).expect("policy");
    let configured = vec!["alpha".to_string(), "beta".to_string()];
    assert_eq!(
        gateway_read_target(&cat, &configured, "lab://upstream/alpha/file:///a"),
        Some(("alpha".to_string(), "file:///a".to_string()))
    );
    assert_eq!(gateway_read_target(&cat, &configured, "lab://upstream/alpha/http://a"), None);
    assert_eq!(gateway_read_target(&cat, &configured, "lab://upstream/beta/file:///a"), None);
    assert_eq!(gateway_read_target(&cat, &configured, "lab://upstream/gamma/file:///a"), None);
}

#[test]
fn subject_reads_are_checked_before_any_io() {
    let cfg = config("linear", Some(vec!["issue://*"]));
    assert_eq!(
        subject_read_target(&cfg, "lab://upstream/linear/issue://42"),
        Ok("issue://42".to_string())
    );
    assert_eq!(
        subject_read_target(&cfg, "lab://upstream/other/issue://42"),
        Err(SubjectReadError::UriMismatch)
    );
    let hidden = subject_read_target(&cfg, "ui://linear/panel").expect_err("hidden");
    assert_eq!(hidden, SubjectReadError::NotExposed("linear".to_string()));
    assert_eq!(hidden.message(), "resource is not exposed by upstream `linear`");
    assert_eq!(
        SubjectReadError::UriMismatch.message(),
        "resource uri does not match upstream"
    );
}

#[test]
fn subject_resource_cache_ages_out() {
    assert!(subject_resource_cache_usable(false, 1_000, 900, 500, Some(950), 100));
    assert!(!subject_resource_cache_usable(true, 1_000, 900, 500, Some(950), 100));
    assert!(!subject_resource_cache_usable(false, 1_000, 400, 500, Some(950), 100));
    assert!(!subject_resource_cache_usable(false, 1_000, 900, 500, Some(800), 100));
    assert!(!subject_resource_cache_usable(false, 1_000, 900, 500, None, 100));
}

#[test]
fn exact_reads_are_admitted_in_order_and_answered_by_outcome() {
    assert_eq!(exact_read_admission("a", "b", true, true, 5), Err(ExactResourceReadError::Unavailable));
    assert_eq!(exact_read_admission("a", "a", false, true, 5), Err(ExactResourceReadError::QueueUnavailable));
    assert_eq!(exact_read_admission("a", "a", true, false, 5), Err(ExactResourceReadError::Unavailable));
    assert_eq!(exact_read_admission("a", "a", true, true, 0), Err(ExactResourceReadError::QueueUnavailable));
    assert_eq!(exact_read_admission("a", "a", true, true, 5), Ok(()));

    assert_eq!(exact_read_health_update(ReadOutcome::Cancelled, true), HealthUpdate::Untouched);
    assert_eq!(
        exact_read_health_update(ReadOutcome::UpstreamError { affects_health: false }, true),
        HealthUpdate::RecordSuccess
    );
    assert_eq!(exact_read_health_update(ReadOutcome::Timeout, true), HealthUpdate::RecordFailure);
    assert_eq!(exact_read_health_update(ReadOutcome::Timeout, false), HealthUpdate::Untouched);
    assert_eq!(
        exact_read_health_update(ReadOutcome::Completed { too_large: false }, false),
        HealthUpdate::Untouched
    );

    assert_eq!(exact_read_result(ReadOutcome::Completed { too_large: true }, true), Err(ExactResourceReadError::TooLarge));
    assert_eq!(exact_read_result(ReadOutcome::Completed { too_large: false }, false), Err(ExactResourceReadError::Unavailable));
    assert_eq!(exact_read_result(ReadOutcome::Timeout, true), Err(ExactResourceReadError::Timeout));
    assert_eq!(exact_read_result(ReadOutcome::UpstreamError { affects_health: true }, true), Err(ExactResourceReadError::Upstream));
    assert_eq!(exact_read_result(ReadOutcome::Cancelled, true), Err(ExactResourceReadError::Cancelled));
    assert_eq!(ExactResourceReadError::Timeout.message(), "upstream resource read timed out");
}

#[test]
fn resource_listings_update_the_catalog_entry() {
    let mut e = entry("alpha", &[], true);
    assert!(apply_resource_list_success(&mut e, vec!["file:///a".to_string()]));
    assert_eq!(e.resource_count, 1);
    assert!(!apply_resource_list_success(&mut e, vec!["file:///a".to_string()]));
    let cat = vec![e, entry("beta", &[], true)];
    let cached = cached_upstream_resource_uris(&cat);
    assert_eq!(cached, vec![("alpha".to_string(), vec!["file:///a".to_string()])]);
    let mut e = entry("alpha", &[], true);
    e.resource_uris = vec!["x".to_string()];
    e.resource_count = 1;
    apply_resource_list_failure(&mut e);
    assert_eq!(e.resource_count, 0);
    assert!(e.resource_uris.is_empty());
}

#[test]
fn skills_listings_update_the_catalog_entry() {
    let mut e = entry("alpha", &[], true);
    record_skills_listing(&mut e, true, 4, vec!["review".to_string()]);
    assert_eq!(e.supports_skills, Some(true));
    assert_eq!(e.skill_count, 4);
    assert_eq!(e.skill_names, vec!["review".to_string()]);
    clear_skills_listing(&mut e);
    assert_eq!(e.skill_count, 0);
    assert!(e.skill_names.is_empty());
    assert_eq!(e.supports_skills, Some(true));
    record_skills_listing(&mut e, false, 4, vec!["ignored".to_string()]);
    assert_eq!(e.supports_skills, Some(false));
    assert_eq!(e.skill_count, 0);
}

#[test]
fn unscoped_gateway_documents_cover_every_registered_upstream() {
    let cat = catalog();
    let names: Vec<String> = gateway_servers_doc(&cat).into_iter().map(|r| r.name).collect();
    assert_eq!(names, vec!["alpha", "beta", "gamma"]);
    let schema = gateway_server_schema(&cat, "beta").expect("registered, whatever its health");
    assert_eq!(schema.len(), 1);
    assert_eq!(schema[0].tool.name, "delete");
    assert!(gateway_server_schema(&cat, "nobody").is_none());
    let uris: Vec<String> = gateway_synthetic_resources(&cat).into_iter().map(|r| r.uri).collect();
    assert_eq!(
        uris,
        vec![
            "lab://gateway/servers",
            "lab://gateway/alpha/schema",
            "lab://gateway/beta/schema",
            "lab://gateway/gamma/schema"
        ]
    );
}

#[test]
fn tool_schema_comes_from_the_first_exposing_upstream_with_a_schema() {
    let mut cat = vec![entry("alpha", &["search"], false), entry("beta", &["search"], true)];
    cat[0].tools[0].tool.has_input_schema = false;
    let t = tool_schema(&cat, "search").expect("beta has one");
    assert_eq!(t.upstream_name, "beta");
    cat[1].exposure_policy = ExposurePolicy::from_patterns(vec!["list".to_string()]).expect("policy");
    assert!(tool_schema(&cat, "search").is_none());
    cat[0].tools[0].tool.has_input_schema = true;
    assert_eq!(tool_schema(&cat, "search").expect("alpha, unhealthy or not").upstream_name, "alpha");
    assert!(tool_schema(&cat, "nothing").is_none());
}

#[test]
fn subject_scoped_tools_are_routed_and_bounded() {
    let mut disabled = config("off", None);
    disabled.enabled = false;
    let configs = vec![config("linear", None), disabled, config("notion", None)];
    assert_eq!(subject_configs_allowed(&configs, None), vec![0, 2]);
    let scope = vec!["notion".to_string()];
    assert_eq!(subject_configs_allowed(&configs, Some(&scope)), vec![2]);

    let groups = vec![
        ("linear".to_string(), vec![descriptor("search"), descriptor("create")]),
        ("notion".to_string(), vec![descriptor("search")]),
    ];
    let routed = subject_scoped_upstream_tools_allowed_bounded(&groups, 2);
    let pairs: Vec<(&str, &str)> =
        routed.iter().map(|t| (t.tool.name.as_str(), t.upstream_name.as_str())).collect();
    assert_eq!(pairs, vec![("create", "linear"), ("search", "linear")]);
    assert_eq!(subject_scoped_upstream_tools_allowed(&groups).len(), 3);
}

#[test]
fn cached_resources_are_published_with_provenance_and_bounded() {
    let cached = vec![
        ("beta".to_string(), ResourceRow { uri: "file:///b".to_string(), json_bytes: 10 }),
        ("alpha".to_string(), ResourceRow { uri: "ui://alpha/panel".to_string(), json_bytes: 10 }),
        ("alpha".to_string(), ResourceRow { uri: "file:///a".to_string(), json_bytes: 10 }),
    ];
    let listed = cached_upstream_resources_with_provenance_allowed(cached, 1_000);
    let uris: Vec<&str> = listed.iter().map(|l| l.uri.as_str()).collect();
    assert_eq!(uris, vec!["lab://upstream/alpha/file:///a", "ui://alpha/panel", "lab://upstream/beta/file:///b"]);
    assert_eq!(listed[0].native_uri, "file:///a");

    let cached = vec![
        ("alpha".to_string(), ResourceRow { uri: "file:///a".to_string(), json_bytes: 10 }),
        ("alpha".to_string(), ResourceRow { uri: "file:///b".to_string(), json_bytes: 10 }),
    ];
    assert_eq!(cached_upstream_resources_with_provenance_allowed(cached, 23).len(), 1);
}

#[test]
fn warmups_start_only_when_cold_and_are_awaited_only_for_unlisted_upstreams() {
    let idle = ResourceSnapshotWarmup::plan(Vec::new(), Vec::new());
    assert!(!idle.started);
    assert!(!idle.must_wait());
    let stale = ResourceSnapshotWarmup::plan(Vec::new(), vec!["alpha".to_string()]);
    assert!(stale.started);
    assert!(!stale.must_wait());
    let missing = ResourceSnapshotWarmup::plan(vec!["beta".to_string()], Vec::new());
    assert!(missing.started);
    assert!(missing.must_wait());
}

#[test]
fn normalize_resource_result_uri_rewrites_all_contents() {
    let result = ReadResourceResult::new(vec![
        ResourceContents::text("hello", "http://upstream/resource"),
        ResourceContents::blob("YWJj", "file:///tmp/upstream"),
    ]);

    let read: Vec<String> = result
        .contents
        .iter()
        .map(|content| match content {
            ResourceContents::TextResourceContents { uri, .. }
            | ResourceContents::BlobResourceContents { uri, .. } => uri.clone(),
            #[allow(unreachable_patterns)]
            _ => String::new(),
        })
        .collect();
    let uris = normalize_resource_result_uri(read, "lab://upstream/demo/http://upstream/resource");

    assert_eq!(
        uris,
        vec![
            "lab://upstream/demo/http://upstream/resource",
            "lab://upstream/demo/http://upstream/resource",
        ]
    );
}

#[test]
fn stale_observations_are_applied_neither_as_success_nor_as_failure() {
    assert!(observed_listing_applies(3, Some(3)));
    assert!(!observed_listing_applies(3, Some(4)));
    assert!(!observed_listing_applies(3, None));

    let mut e = entry("alpha", &[], true);
    assert_eq!(apply_observed_resource_list_success(&mut e, 1, Some(2), vec!["file:///a".to_string()]), None);
    assert!(e.resource_uris.is_empty());
    assert_eq!(apply_observed_resource_list_success(&mut e, 2, Some(2), vec!["file:///a".to_string()]), Some(true));
    assert_eq!(e.resource_count, 1);
    assert!(!apply_observed_resource_list_failure(&mut e, 1, Some(2)));
    assert_eq!(e.resource_count, 1);
    assert!(apply_observed_resource_list_failure(&mut e, 2, Some(2)));
    assert_eq!(e.resource_count, 0);

    let mut e = entry("alpha", &[], true);
    e.resource_exposure_policy = ExposurePolicy::from_patterns(vec!["file://*".to_string()]).expect("policy");
    assert!(exact_read_applies(&e, 5, Some(5), 9, Some(9), "file:///a"));
    assert!(!exact_read_applies(&e, 5, Some(6), 9, Some(9), "file:///a"));
    assert!(!exact_read_applies(&e, 5, Some(5), 9, Some(10), "file:///a"));
    assert!(!exact_read_applies(&e, 5, Some(5), 9, Some(9), "http://a"));
    assert!(!exact_read_applies(&e, 5, None, 9, Some(9), "file:///a"));
}
