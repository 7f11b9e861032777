use labby_gateway::exposure::{ExposurePolicy, SkillExposureDecision, SkillExposureReason};
use labby_gateway::inflight::{InflightRegistry, UpstreamRequestLog};
use labby_gateway::resources::catalog_listing_timeout;
use labby_gateway::skills_cache::{
    clamp_ttl, SKILLS_TTL_CEILING_MS, SKILLS_TTL_DEFAULT_MS, SKILLS_TTL_FLOOR_MS,
};
use labby_gateway::stderr::{cap_line_bytes, parse_stderr_level, StderrLevel};

#[test]
fn resource_catalog_timeout_caps_the_general_upstream_budget() {
    assert_eq!(catalog_listing_timeout(60_000), 10_000);
    assert_eq!(catalog_listing_timeout(25), 25);
}

#[test]
fn ttl_is_clamped_against_hostile_and_absent_values() {
    assert_eq!(clamp_ttl(None), SKILLS_TTL_DEFAULT_MS);
    assert_eq!(clamp_ttl(Some(0)), SKILLS_TTL_FLOOR_MS);
    assert_eq!(clamp_ttl(Some(u64::MAX)), SKILLS_TTL_CEILING_MS);
    assert_eq!(clamp_ttl(Some(60_000)), 60_000);
}

#[test]
fn unrestricted_policy_is_explained_as_allow_all() {
    let decision = SkillExposureDecision::evaluate(&ExposurePolicy::all(), "review-pr");

    assert!(decision.exposed);
    assert_eq!(decision.reason, SkillExposureReason::AllowAll);
    assert_eq!(decision.matched_pattern.as_deref(), Some("*"));
}

#[test]
fn allowlist_reports_the_matching_pattern() {
    let policy = ExposurePolicy::from_patterns(vec!["review-*".to_string()]).expect("policy");
    let decision = SkillExposureDecision::evaluate(&policy, "review-pr");

    assert!(decision.exposed);
    assert_eq!(decision.reason, SkillExposureReason::MatchedPattern);
    assert_eq!(decision.matched_pattern.as_deref(), Some("review-*"));
}

#[test]
fn allowlist_reports_a_non_match_without_inventing_a_rule() {
    let policy = ExposurePolicy::from_patterns(vec!["review-*".to_string()]).expect("policy");
    let decision = SkillExposureDecision::evaluate(&policy, "deploy");

    assert!(!decision.exposed);
    assert_eq!(decision.reason, SkillExposureReason::NotMatched);
    assert_eq!(decision.matched_pattern, None);
}

#[test]
fn stderr_level_unset_defaults_to_debug() {
    assert_eq!(parse_stderr_level(None), Some(StderrLevel::Debug));
}

#[test]
fn stderr_level_named_levels_parse() {
    assert_eq!(parse_stderr_level(Some("trace")), Some(StderrLevel::Trace));
    assert_eq!(parse_stderr_level(Some("debug")), Some(StderrLevel::Debug));
    assert_eq!(parse_stderr_level(Some("INFO")), Some(StderrLevel::Info));
    assert_eq!(parse_stderr_level(Some(" warn ")), Some(StderrLevel::Warn));
    assert_eq!(parse_stderr_level(Some("warning")), Some(StderrLevel::Warn));
}

#[test]
fn stderr_level_disable_values_discard() {
    for raw in ["null", "off", "0", "none", "discard", "FALSE"] {
        assert_eq!(parse_stderr_level(Some(raw)), None, "{raw}");
    }
}

#[test]
fn stderr_level_enable_flavored_and_unknown_fall_back_to_debug() {
    for raw in ["", "on", "1", "true", "verbose", "garbage"] {
        assert_eq!(parse_stderr_level(Some(raw)), Some(StderrLevel::Debug), "{raw}");
    }
}

#[test]
fn cap_line_bytes_is_utf8_boundary_safe() {
    let line = "aéé";
    assert_eq!(cap_line_bytes(line, 3), "aé");
    assert_eq!(cap_line_bytes("abc", 8), "abc");
    assert_eq!(cap_line_bytes("éé", 4), "éé");
    assert_eq!(cap_line_bytes("ééé", 1), "");
}

#[test]
fn cap_line_bytes_never_panics_on_any_boundary() {
    let line = "x😀y漢字é";
    for max in 0..=line.len() + 2 {
        let capped = cap_line_bytes(line, max.min(line.len()));
        assert!(line.starts_with(capped));
    }
}

#[test]
fn inflight_registry_is_scoped_to_connection_generation() {
    let mut registry = InflightRegistry::new();
    let upstream = format!("stdio-registry-{}", registry.begin_generation());
    let generation = registry.begin_generation();
    let event = UpstreamRequestLog {
        upstream: upstream.clone(),
        capability: "tool".to_string(),
        operation: "call".to_string(),
        item: Some("Bash".to_string()),
    };
    let guard = registry.register_inflight(&event, Some(generation)).expect("stdio generation");

    let requests = registry.take_inflight(&upstream, generation);
    assert_eq!(requests.len(), 1);
    assert!(requests[0].contains("Bash"));
    registry.release(guard);
    assert!(registry.register_inflight(&event, None).is_none());
}

#[test]
fn releasing_a_registration_undoes_exactly_it() {
    let mut registry = InflightRegistry::new();
    let generation = registry.begin_generation();
    let event = |item: &str| UpstreamRequestLog {
        upstream: "up".to_string(),
        capability: "tool".to_string(),
        operation: "call".to_string(),
        item: Some(item.to_string()),
    };
    let first = registry.register_inflight(&event("a"), Some(generation)).expect("guard");
    let second = registry.register_inflight(&event("b"), Some(generation)).expect("guard");
    let other = registry.register_inflight(&event("c"), Some(generation + 1)).expect("guard");
    registry.release(second);
    assert_eq!(registry.take_inflight("up", generation), vec!["tool:call:a#1".to_string()]);
    assert_eq!(registry.take_inflight("up", generation + 1), vec!["tool:call:c#3".to_string()]);
    registry.release(first);
    registry.release(other);
}
