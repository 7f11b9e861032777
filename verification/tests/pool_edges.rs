use labby_gateway::child_exit::{exit_code, exit_signal, ExitStatusInfo};
use labby_gateway::exposure::ExposurePolicy;
use labby_gateway::resources::{
    bound_listed_resources, collect_resource_templates, listed_resources_for, ListedUpstreamResource,
    ResourceRow, TemplateRow,
};
use labby_gateway::skills_cache::skills_cache_subject;
use labby_gateway::resources::subject_resource_cache_usable;
use labby_gateway::scoped_summary::{
    cached_subject_summary, invalidate_subject_resource_catalogs, record_subject_optional_catalog,
    SubjectConnectError, SubjectConnectionSnapshot,
};
use labby_gateway::skills_cache::{SkillRecord, SkillResourceEntry};
use labby_gateway::skills_view::{
    discovery_plan, exposed_skill_indices, operator_skills_unproxied, preview_admitted, DiscoveryPlan,
};
use labby_gateway::stderr::{truncated_line, upstream_stderr_log_level, StderrLevel};
use labby_gateway::task_route::TaskRoutes;
use labby_gateway::tool_call::{hidden_tool_call_error, HeaderRecoveryStats};
use labby_gateway::tool_catalog::{ToolDescriptor, UpstreamConfig};

fn config(name: &str) -> UpstreamConfig {
    UpstreamConfig {
        name: name.to_string(),
        enabled: true,
        oauth: true,
        proxy_resources: true,
        proxy_prompts: false,
        proxy_skills: true,
        expose_tools: Some(vec!["read*".to_string()]),
        expose_resources: Some(vec!["file://*".to_string()]),
        expose_prompts: None,
        expose_skills: None,
    }
}

fn tool(name: &str) -> ToolDescriptor {
    ToolDescriptor {
        name: name.to_string(),
        description: None,
        serialized_bytes: 1,
        has_input_schema: false,
        ui_resource_uri: None,
        openai_output_template: None,
        ui_visible_to_app: false,
        openai_widget_accessible: false,
    }
}

fn row(uri: &str) -> ResourceRow {
    ResourceRow { uri: uri.to_string(), json_bytes: 10 }
}

fn uris(snap: &SubjectConnectionSnapshot) -> Option<Vec<String>> {
    snap.resources.as_ref().map(|rows| rows.iter().map(|r| r.uri.clone()).collect())
}

fn snapshot(last_used_ms: u64) -> SubjectConnectionSnapshot {
    SubjectConnectionSnapshot {
        transport_closed: false,
        last_used_ms,
        tools: vec![tool("read_page"), tool("write_page")],
        resources: Some(vec![row("file:///a"), row("http://b")]),
        resources_listed_at_ms: Some(last_used_ms),
        prompts: None,
    }
}

#[test]
fn subject_summary_counts_what_the_live_connection_exposes() {
    let cfg = config("notion");
    let conn = snapshot(990);
    let s = cached_subject_summary(&cfg, true, None, Some(&conn), 1_000, 100);
    assert!(s.connected);
    assert!(s.tools_known && s.resources_known && s.prompts_known);
    assert_eq!(s.summary.discovered_tool_count, 2);
    assert_eq!(s.summary.exposed_tool_count, 1);
    assert_eq!(s.summary.discovered_resource_count, 2);
    assert_eq!(s.summary.exposed_resource_count, 1);
    assert_eq!(s.summary.exposed_prompt_count, 0);

    let idle = cached_subject_summary(&cfg, true, None, Some(&conn), 2_000, 100);
    assert!(!idle.connected);
    assert_eq!(idle.summary.discovered_tool_count, 2);
    assert_eq!(idle.summary.exposed_tool_count, 0);

    let err = SubjectConnectError { message: "token expired".to_string(), recorded_at_ms: 950 };
    let failed = cached_subject_summary(&cfg, true, Some(&err), None, 1_000, 100);
    assert_eq!(failed.last_error.as_deref(), Some("token expired"));
    assert!(!failed.tools_known);
    let old = cached_subject_summary(&cfg, true, Some(&err), None, 1_100, 100);
    assert!(old.last_error.is_none());
    let anonymous = cached_subject_summary(&cfg, false, Some(&err), Some(&conn), 1_000, 100);
    assert!(!anonymous.connected && anonymous.last_error.is_none());
    assert_eq!(anonymous.summary.discovered_tool_count, 0);
}

#[test]
fn invalidating_one_upstreams_subject_listings_keeps_the_connections() {
    let mut conns = vec![
        ("notion".to_string(), snapshot(10)),
        ("linear".to_string(), snapshot(20)),
        ("notion".to_string(), snapshot(30)),
    ];
    assert_eq!(invalidate_subject_resource_catalogs(&mut conns, "notion"), 2);
    assert!(conns[0].1.resources.is_none() && conns[0].1.resources_listed_at_ms.is_none());
    assert_eq!(conns[0].1.tools.len(), 2);
    assert!(conns[1].1.resources.is_some());
    assert!(conns[2].1.resources.is_none());
    assert_eq!(invalidate_subject_resource_catalogs(&mut conns, "notion"), 0);
}

#[test]
fn listings_are_filtered_namespaced_and_templates_ordered() {
    let policy = ExposurePolicy::from_patterns(vec!["file://*".to_string(), "ui://*".to_string()]).expect("policy");
    let rows = vec![
        ResourceRow { uri: "file:///a".to_string(), json_bytes: 5 },
        ResourceRow { uri: "http://hidden".to_string(), json_bytes: 5 },
        ResourceRow { uri: "ui://alpha/panel".to_string(), json_bytes: 5 },
    ];
    let listed = listed_resources_for(&"alpha".to_string(), &policy, rows);
    let uris: Vec<&str> = listed.iter().map(|l| l.uri.as_str()).collect();
    assert_eq!(uris, vec!["lab://upstream/alpha/file:///a", "ui://alpha/panel"]);

    let results = vec![
        ("beta".to_string(), vec![TemplateRow { name: "doc".to_string(), uri_template: "doc://{id}".to_string() }]),
        ("alpha".to_string(), vec![TemplateRow { name: "app".to_string(), uri_template: "ui://alpha/{id}".to_string() }]),
    ];
    let templates = collect_resource_templates(results);
    let shape: Vec<(&str, &str)> =
        templates.iter().map(|t| (t.name.as_str(), t.uri_template.as_str())).collect();
    assert_eq!(
        shape,
        vec![("alpha/app", "ui://alpha/{id}"), ("beta/doc", "lab://upstream/beta/doc://{id}")]
    );
    assert_eq!(templates[1].native_uri_template, "doc://{id}");
}

#[test]
fn stderr_lines_are_levelled_and_capped() {
    assert!(upstream_stderr_log_level(Some(" OFF "), Some("trace")).is_none());
    assert!(upstream_stderr_log_level(None, Some("Warning")) == Some(StderrLevel::Warn));
    assert!(upstream_stderr_log_level(Some("info"), None) == Some(StderrLevel::Info));
    assert!(upstream_stderr_log_level(None, None) == Some(StderrLevel::Debug));
    assert_eq!(truncated_line("short"), "short");
    let long = "é".repeat(600);
    let cut = truncated_line(&long);
    assert!(cut.ends_with("…[truncated]"));
    assert_eq!(cut.len(), 1024 + "…[truncated]".len());
}

#[test]
fn header_recovery_counters_are_per_upstream() {
    let mut stats = HeaderRecoveryStats::new();
    assert_eq!(stats.record_header_mismatch("a"), 1);
    assert_eq!(stats.record_header_mismatch("a"), 2);
    assert_eq!(stats.record_header_schema_refresh("a"), 1);
    assert_eq!(stats.record_header_mismatch("b"), 1);
    assert_eq!(stats.record_header_retry("a", true), 1);
    let a = stats.counts("a");
    assert_eq!((a.mismatches, a.schema_refreshes, a.retry_successes, a.retry_failures), (2, 1, 1, 0));
    let reply = hidden_tool_call_error(&config("notion"), "write_page");
    assert_eq!(reply.code, -32601);
    assert_eq!(reply.message, "upstream `notion` does not expose tool `write_page`");
}

fn skill(name: &str) -> SkillRecord {
    SkillRecord {
        name: name.to_string(),
        uri: format!("skill://up/{name}/SKILL.md"),
        resources: vec![SkillResourceEntry {
            uri: format!("skill://up/{name}/SKILL.md"),
            size: 1,
            digest: "sha256:00".to_string(),
        }],
    }
}

#[test]
fn skill_discovery_plans_and_views() {
    assert!(discovery_plan(false, 1, 10, true) == DiscoveryPlan::Empty);
    assert!(discovery_plan(true, 10, 10, false) == DiscoveryPlan::FullListing);
    assert!(discovery_plan(true, 1, 10, true) == DiscoveryPlan::ServeCached);
    assert!(discovery_plan(true, 1, 10, false) == DiscoveryPlan::FetchPreview);
    assert!(preview_admitted(3, 3));
    assert!(!preview_admitted(3, 4));
    let skills = vec![skill("review-pr"), skill("deploy"), skill("review-doc")];
    let policy = ExposurePolicy::from_patterns(vec!["review-*".to_string()]).expect("policy");
    assert_eq!(exposed_skill_indices(&skills, &policy), vec![0, 2]);
    let o = operator_skills_unproxied(Some(true));
    assert_eq!(o.supports_skills, Some(true));
    assert_eq!(o.discovered_count, 0);
    assert!(o.skills.is_empty() && !o.truncated && !o.refreshing);
}

#[test]
fn task_handles_and_exit_statuses() {
    let mut routes = TaskRoutes::new();
    assert_eq!(routes.mint_task_handle(), "labby-task-0000000000000001");
    assert_eq!(routes.mint_task_handle(), "labby-task-0000000000000002");
    let exited = ExitStatusInfo { code: Some(3), signal: None, success: false };
    assert_eq!(exit_code(Some(exited)), Some(3));
    assert_eq!(exit_signal(Some(exited)), None);
    let killed = ExitStatusInfo { code: None, signal: Some(9), success: false };
    assert_eq!(exit_signal(Some(killed)), Some(9));
    assert_eq!(exit_code(None), None);
}

#[test]
fn optional_catalogs_are_recorded_only_for_the_live_session() {
    let mut snap = snapshot(10);
    snap.resources = None;
    snap.resources_listed_at_ms = None;
    record_subject_optional_catalog(&mut snap, false, Some(vec![row("file:///x")]), None, 50);
    assert!(snap.resources.is_none());
    record_subject_optional_catalog(&mut snap, true, Some(vec![row("file:///x")]), None, 50);
    assert_eq!(uris(&snap), Some(vec!["file:///x".to_string()]));
    assert_eq!(snap.resources_listed_at_ms, Some(50));
    assert!(snap.prompts.is_none());
    record_subject_optional_catalog(&mut snap, true, None, Some(vec!["summarize".to_string()]), 70);
    assert_eq!(snap.resources_listed_at_ms, Some(50));
    assert_eq!(snap.prompts, Some(vec!["summarize".to_string()]));
    snap.transport_closed = true;
    record_subject_optional_catalog(&mut snap, true, Some(Vec::new()), None, 90);
    assert_eq!(uris(&snap), Some(vec!["file:///x".to_string()]));
}

fn listed(upstream: &str, native: &str, json_bytes: usize) -> ListedUpstreamResource {
    ListedUpstreamResource {
        upstream_name: upstream.to_string(),
        native_uri: native.to_string(),
        uri: format!("lab://upstream/{upstream}/{native}"),
        json_bytes,
    }
}

#[test]
fn merged_listing_sort_is_stable_for_equal_keys() {
    let rows = vec![
        listed("beta", "file:///a", 1),
        listed("alpha", "file:///x", 10),
        listed("alpha", "file:///x", 20),
        listed("alpha", "file:///a", 30),
    ];
    let bounded = bound_listed_resources(rows, 1_000);
    let shape: Vec<(&str, &str, usize)> = bounded
        .iter()
        .map(|r| (r.upstream_name.as_str(), r.native_uri.as_str(), r.json_bytes))
        .collect();
    assert_eq!(
        shape,
        vec![
            ("alpha", "file:///a", 30),
            ("alpha", "file:///x", 10),
            ("alpha", "file:///x", 20),
            ("beta", "file:///a", 1)
        ]
    );
}

#[test]
fn each_subject_gets_its_own_skills_shard() {
    assert_eq!(skills_cache_subject(Some("alice")), Some("alice"));
    assert_ne!(skills_cache_subject(Some("alice")), skills_cache_subject(Some("bob")));
    assert_eq!(skills_cache_subject(None), None);
}

#[test]
fn a_fresh_subject_listing_is_reused_until_it_ages_or_is_cleared() {
    let mut snap = snapshot(100);
    snap.resources = None;
    snap.resources_listed_at_ms = None;
    assert!(!subject_resource_cache_usable(snap.transport_closed, 150, snap.last_used_ms, 1_000, snap.resources_listed_at_ms, 500));
    record_subject_optional_catalog(&mut snap, true, Some(vec![row("file:///a")]), None, 100);
    assert!(subject_resource_cache_usable(snap.transport_closed, 150, snap.last_used_ms, 1_000, snap.resources_listed_at_ms, 500));
    assert!(!subject_resource_cache_usable(snap.transport_closed, 600, snap.last_used_ms, 1_000, snap.resources_listed_at_ms, 500));
    let mut conns = vec![("notion".to_string(), snap)];
    invalidate_subject_resource_catalogs(&mut conns, "notion");
    let s = &conns[0].1;
    assert!(!subject_resource_cache_usable(s.transport_closed, 150, s.last_used_ms, 1_000, s.resources_listed_at_ms, 500));
}
