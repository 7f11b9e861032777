use base64::Engine;
use labby_gateway::exposure::ExposurePolicy;
use labby_gateway::gateway_docs::render_subject_scoped_gateway_schema;
use labby_gateway::resources::{aggregate_subject_resources, rewrite_resource_template, ResourceRow};
use labby_gateway::skills_cache::{
    evict, CachedSkills, SkillsCacheSlot, UpstreamSkills, SKILLS_CACHE_IDLE_TTL_MS,
    SKILLS_CACHE_MAX_SUBJECTS_PER_UPSTREAM, SKILLS_REFRESH_BACKOFF_BASE_MS,
    SKILLS_REFRESH_BACKOFF_MAX_MS,
};
use labby_gateway::skills_provider::{operation_timeout_ms, SkillProviderId, SkillProviderKind};
use labby_gateway::skills_read::{skill_read_response_size, SkillContent};
use labby_gateway::tool_call::is_tool_header_mismatch;
use labby_gateway::tool_catalog::{ToolDescriptor, MAX_UPSTREAM_RESOURCES};

const NOW: u64 = 5_000_000;

fn snapshot(ttl_ms: Option<u64>) -> UpstreamSkills {
    let mut s = UpstreamSkills::empty();
    s.ttl_ms = ttl_ms;
    s
}

fn slot(upstream: &str, subject: Option<String>, entry: CachedSkills) -> SkillsCacheSlot {
    SkillsCacheSlot { upstream: upstream.to_string(), subject, entry }
}

fn has_slot(cache: &[SkillsCacheSlot], upstream: &str, subject: Option<&str>) -> bool {
    cache.iter().any(|s| s.upstream == upstream && s.subject.as_deref() == subject)
}

#[test]
fn a_fresh_entry_reports_fresh_and_ages() {
    let entry = CachedSkills::new(snapshot(Some(60_000)), NOW);
    assert!(entry.is_fresh(NOW));
    assert!(entry.age(NOW) < 1_000);
    assert!(!entry.refreshing);
}

#[test]
fn a_zero_ttl_entry_still_gets_the_floor_not_instant_expiry() {
    let entry = CachedSkills::new(snapshot(Some(0)), NOW);
    assert!(entry.is_fresh(NOW));
}

#[test]
fn eviction_caps_subjects_per_upstream_without_cross_upstream_thrashing() {
    let mut cache: Vec<SkillsCacheSlot> = Vec::new();
    for i in 0..SKILLS_CACHE_MAX_SUBJECTS_PER_UPSTREAM + 10 {
        let mut entry = CachedSkills::new(snapshot(None), NOW);
        entry.last_used_ms = NOW
            .checked_sub((1000 - i as u64) * 1000)
            .expect("staggered instant is within range");
        cache.push(slot("busy", Some(format!("subject-{i}")), entry));
    }
    for i in 0..8 {
        cache.push(slot(&format!("quiet-{i}"), None, CachedSkills::new(snapshot(None), NOW)));
    }

    evict(&mut cache, NOW);

    let busy = cache.iter().filter(|s| s.upstream == "busy").count();
    assert_eq!(busy, SKILLS_CACHE_MAX_SUBJECTS_PER_UPSTREAM);
    assert!(!has_slot(&cache, "busy", Some("subject-0")));
    for i in 0..8 {
        assert!(has_slot(&cache, &format!("quiet-{i}"), None));
    }
}

#[test]
fn failed_refresh_enters_bounded_negative_backoff() {
    let mut entry = CachedSkills::new(snapshot(Some(60_000)), NOW);
    assert!(entry.begin_refresh(NOW));
    entry.fail_refresh(NOW);
    let first = entry.retry_after(NOW).expect("retry delay");
    assert!(first > 0);
    assert!(first <= SKILLS_REFRESH_BACKOFF_BASE_MS);
    assert!(!entry.begin_refresh(NOW), "backoff suppresses an immediate retry");

    entry.retry_after_ms = Some(NOW);
    assert!(entry.begin_refresh(NOW));
    entry.fail_refresh(NOW);
    let second = entry.retry_after(NOW).expect("second retry delay");
    assert!(second >= first);
    assert!(second <= SKILLS_REFRESH_BACKOFF_MAX_MS);
}

#[test]
fn eviction_drops_idle_entries_regardless_of_cap() {
    let mut cache: Vec<SkillsCacheSlot> = Vec::new();
    let mut idle = CachedSkills::new(snapshot(None), NOW);
    idle.last_used_ms = NOW
        .checked_sub(SKILLS_CACHE_IDLE_TTL_MS + 1_000)
        .expect("idle instant is within range");
    cache.push(slot("idle", None, idle));
    cache.push(slot("live", None, CachedSkills::new(snapshot(None), NOW)));

    evict(&mut cache, NOW);
    assert!(!has_slot(&cache, "idle", None));
    assert!(has_slot(&cache, "live", None));
}

fn published_bytes(upstream: &str, native: &str, name: &str) -> usize {
    let uri = format!("lab://upstream/{upstream}/{native}");
    let resource = rmcp::model::Resource::new(uri, name.to_string());
    serde_json::to_vec(&resource).expect("serialize resource").len()
}

fn rows(upstream: &str, items: &[(String, String)]) -> Vec<ResourceRow> {
    items
        .iter()
        .map(|(uri, name)| ResourceRow {
            uri: uri.clone(),
            json_bytes: published_bytes(upstream, uri, name),
        })
        .collect()
}

#[test]
fn subject_resource_aggregation_enforces_global_item_cap() {
    let alpha: Vec<(String, String)> = (0..700)
        .map(|index| (format!("file:///alpha/{index}"), "resource".to_string()))
        .collect();
    let beta: Vec<(String, String)> = (0..700)
        .map(|index| (format!("file:///beta/{index}"), "resource".to_string()))
        .collect();
    let results = vec![
        ("alpha".to_string(), ExposurePolicy::All, Some(rows("alpha", &alpha))),
        ("beta".to_string(), ExposurePolicy::All, Some(rows("beta", &beta))),
    ];

    let resources = aggregate_subject_resources(results, MAX_UPSTREAM_RESOURCES, usize::MAX);

    assert_eq!(resources.len(), MAX_UPSTREAM_RESOURCES);
}

#[test]
fn subject_resource_aggregation_enforces_global_byte_cap() {
    let alpha = vec![
        ("file:///alpha/one".to_string(), "x".repeat(128)),
        ("file:///alpha/two".to_string(), "y".repeat(128)),
    ];
    let results = vec![("alpha".to_string(), ExposurePolicy::All, Some(rows("alpha", &alpha)))];

    let resources = aggregate_subject_resources(results, MAX_UPSTREAM_RESOURCES, 300);

    assert_eq!(resources.len(), 1);
}

#[test]
fn resource_template_rewrite_preserves_nested_gateway_namespace() {
    let (name, uri_template) = rewrite_resource_template(
        "nested",
        "lab://upstream/leaf/fixture://template/{value}",
        "middle",
    );

    assert_eq!(name, "middle/nested");
    assert_eq!(uri_template, "lab://upstream/middle/lab://upstream/leaf/fixture://template/{value}");
}

fn tool(name: &str, description: &str) -> ToolDescriptor {
    ToolDescriptor {
        name: name.to_string(),
        description: Some(description.to_string()),
        serialized_bytes: 0,
        has_input_schema: false,
        ui_resource_uri: None,
        openai_output_template: None,
        ui_visible_to_app: false,
        openai_widget_accessible: false,
    }
}

#[test]
fn subject_scoped_gateway_schema_renders_and_filters_tools() {
    let tools = vec![
        tool("hidden_tool", "hidden"),
        tool("fill_linear_dev_handoff", "prepare a Linear handoff"),
    ];
    let policy = ExposurePolicy::from_patterns(vec!["fill_*".to_string()]).expect("policy");

    let doc =
        render_subject_scoped_gateway_schema(&"notification_worker_linear".to_string(), &tools, &policy);

    assert_eq!(doc.name, "notification_worker_linear");
    assert_eq!(doc.health, "healthy");
    assert!(doc.last_error.is_none());
    assert_eq!(doc.catalog_source, "subject_scoped_live");
    assert_eq!(doc.tools[0].tool.name, "fill_linear_dev_handoff");
    assert!(!doc.tools[0].tool.has_input_schema);
    assert_eq!(doc.tools.len(), 1);
}

#[test]
fn provider_identity_is_scoped_to_the_upstream() {
    let id = SkillProviderId::new(SkillProviderKind::McpUpstream, "docs");
    let other = SkillProviderId::new(SkillProviderKind::McpUpstream, "private");
    assert!(!id.same_as(&other));
}

#[test]
fn provider_default_uses_configured_timeout_and_explicit_shorter_deadline_wins() {
    let configured = 30_000;
    assert_eq!(operation_timeout_ms(u64::MAX, configured), configured);
    assert_eq!(operation_timeout_ms(25, configured), 25);
}

fn text(body: &str) -> SkillContent {
    SkillContent::Text { text: body.to_string(), mime_type: None }
}

fn blob(encoded: String) -> SkillContent {
    SkillContent::Blob { blob: encoded, mime_type: None }
}

#[test]
fn response_sizing_rejects_content_over_the_caller_cap_without_serializing() {
    let contents = vec![text("12345")];
    assert_eq!(skill_read_response_size(&contents, 4, 0), usize::MAX);
}

#[test]
fn response_sizing_counts_padded_base64_as_exact_raw_bytes() {
    for bytes in [vec![0_u8; 4], vec![0_u8; 5]] {
        let encoded = base64::engine::general_purpose::STANDARD.encode(&bytes);
        let contents = vec![blob(encoded)];
        assert_ne!(skill_read_response_size(&contents, bytes.len(), 100), usize::MAX);
        assert_eq!(skill_read_response_size(&contents, bytes.len() - 1, 100), usize::MAX);
    }
}

#[test]
fn response_sizing_accepts_the_required_sixteen_mibibyte_binary_boundary() {
    let max_skill_resource_bytes = 16 * 1024 * 1024;
    let bytes = vec![0_u8; max_skill_resource_bytes];
    let contents = vec![blob(base64::engine::general_purpose::STANDARD.encode(bytes))];
    assert_ne!(skill_read_response_size(&contents, max_skill_resource_bytes, 100), usize::MAX);
}

#[test]
fn response_sizing_streams_the_exact_escape_heavy_serialized_size() {
    let body = "\"\\\n\r\t".repeat(64);
    let mut result = rmcp::model::ReadResourceResult::new(vec![
        rmcp::model::ResourceContents::text(body.clone(), "skill://demo/SKILL.md"),
    ]);
    let mut nested = serde_json::Map::new();
    nested.insert("payload".to_string(), serde_json::Value::String(body.clone()));
    let mut meta = serde_json::Map::new();
    meta.insert("nested".to_string(), serde_json::Value::Object(nested));
    result.meta = Some(rmcp::model::MetaObject(meta));
    let serialized_len = serde_json::to_vec(&result).expect("serialize result").len();

    let contents = vec![text(&body)];
    assert_eq!(skill_read_response_size(&contents, usize::MAX, serialized_len), serialized_len);
    assert!(serialized_len > 1_000);
}

#[test]
fn header_mismatch_detection_uses_the_rmcp_error_code() {
    let ordinary = rmcp::model::ErrorData::invalid_params("ordinary validation failure", None);
    assert!(!is_tool_header_mismatch(Some(ordinary.code.0)));

    let sdk_header_mismatch =
        rmcp::model::ErrorData::header_mismatch("missing Mcp-Param-owner header for `owner`", None);
    assert!(is_tool_header_mismatch(Some(sdk_header_mismatch.code.0)));

    let same_message_wrong_code = rmcp::model::ErrorData::internal_error(
        "header mismatch: application-level message only",
        None,
    );
    assert!(!is_tool_header_mismatch(Some(same_message_wrong_code.code.0)));
}
