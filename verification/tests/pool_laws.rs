use labby_gateway::resource_catalog::{invalidate_upstream_skills_everywhere, record_skills_listing};
use labby_gateway::bounded::insert_bounded;
use labby_gateway::cancel_guard::{
    classify_call_tool, classify_call_tool_once, CallToolResponseKind, CancelDelivery,
    CancelUpstreamOnDrop, DropAction, ServerResultKind, CANCEL_REASON,
};
use labby_gateway::child_exit::{
    decide_after_wait, exit_after_kill, termination_is_routine, ChildExit, ChildSlot, ExitStatusInfo,
    FirstWait, WaitDecision,
};
use labby_gateway::exposure::ExposurePolicy;
use labby_gateway::ranked::{healthy_tools_for_upstream_ranked_bounded, rank_scored_tools};
use labby_gateway::skills_cache::{
    CachedSkills, SkillRecord, SkillResourceEntry, UpstreamSkills, SKILLS_REFRESH_BACKOFF_MAX_MS,
};
use labby_gateway::skills_direct::{judge_fetched_skill, DirectStoreError, FetchedSkillVerdict};
use labby_gateway::skills_provider::{
    discover_result, find_listed_skill, map_skill_read_error, validate_provider, SepSkillProvider,
    SkillProviderError, SkillProviderId, SkillProviderKind,
};
use labby_gateway::skills_read::SkillReadError;
use labby_gateway::skills_store::{RefreshStateGuard, SkillsStore};
use labby_gateway::skills_view::{
    apply_skill_exposure, plan_after_fetch_lock, snapshot_plan, upstream_skills, upstream_skills_operator,
    ExposedSkills, SkillDiscoverySource, SnapshotPlan, UpstreamSkillsStep,
};
use labby_gateway::subscription::{subscription_refresh_required, PendingSubscriptionRefreshes};
use labby_gateway::tool_call::{
    hidden_tool_error, is_tool_header_mismatch, subject_scoped_call_refusal,
    subject_scoped_upstream_tool_allowed, CallOutcome, HeaderRecovery, HeaderRecoveryAction,
    HeaderRecoveryEvent, HeaderRecoveryPhase, HeaderRecoveryStats,
};
use labby_gateway::tool_catalog::{ToolDescriptor, UpstreamConfig, UpstreamEntry, UpstreamTool};

const NOW: u64 = 5_000_000;

fn descriptor(name: &str) -> ToolDescriptor {
    ToolDescriptor {
        name: name.to_string(),
        description: None,
        serialized_bytes: 10,
        has_input_schema: true,
        ui_resource_uri: None,
        openai_output_template: None,
        ui_visible_to_app: false,
        openai_widget_accessible: false,
    }
}

fn routed(upstream: &str, name: &str) -> UpstreamTool {
    UpstreamTool { upstream_name: upstream.to_string(), tool: descriptor(name) }
}

fn config(name: &str, expose_tools: Option<Vec<&str>>, expose_skills: Option<Vec<&str>>) -> UpstreamConfig {
    UpstreamConfig {
        name: name.to_string(),
        enabled: true,
        oauth: true,
        proxy_resources: true,
        proxy_prompts: true,
        proxy_skills: true,
        expose_tools: expose_tools.map(|v| v.into_iter().map(String::from).collect()),
        expose_resources: None,
        expose_prompts: None,
        expose_skills: expose_skills.map(|v| v.into_iter().map(String::from).collect()),
    }
}

fn entry(name: &str, tools: Vec<&str>, routable: bool) -> UpstreamEntry {
    UpstreamEntry {
        name: name.to_string(),
        tools_routable: routable,
        resources_routable: true,
        prompts_routable: true,
        skills_routable: true,
        proxy_resources: true,
        proxy_skills: true,
        exposure_policy: ExposurePolicy::All,
        resource_exposure_policy: ExposurePolicy::All,
        skill_exposure_policy: ExposurePolicy::All,
        tools: tools.into_iter().map(|t| routed(name, t)).collect(),
        resource_uris: Vec::new(),
        resource_count: 0,
        prompt_count: 0,
        skill_count: 0,
        skill_names: Vec::new(),
        supports_skills: None,
    }
}

fn skill(name: &str) -> SkillRecord {
    SkillRecord {
        name: name.to_string(),
        uri: format!("skill://up/{name}/SKILL.md"),
        resources: vec![SkillResourceEntry {
            uri: format!("skill://up/{name}/SKILL.md"),
            size: 10,
            digest: "sha256:00".to_string(),
        }],
    }
}

#[test]
fn bounded_listing_keeps_the_smallest_in_order() {
    let mut v: Vec<String> = Vec::new();
    for name in ["delta", "alpha", "charlie", "bravo"] {
        insert_bounded(&mut v, name.to_string(), 2);
    }
    assert_eq!(v, vec!["alpha".to_string(), "bravo".to_string()]);
}

#[test]
fn header_mismatch_is_retried_exactly_once_after_a_refresh() {
    let mut stats = HeaderRecoveryStats::new();
    let mut recovery = HeaderRecovery::start();
    let first = recovery.step(
        &mut stats,
        "up",
        HeaderRecoveryEvent::CallReturned(CallOutcome::Failed { mcp_error_code: Some(-32020) }),
    );
    assert!(first == HeaderRecoveryAction::RefreshSchemas);
    let second = recovery.step(&mut stats, "up", HeaderRecoveryEvent::RefreshReturned { ok: true });
    assert!(second == HeaderRecoveryAction::RetryCall);
    let third = recovery.step(&mut stats, "up", HeaderRecoveryEvent::CallReturned(CallOutcome::Succeeded));
    assert!(third == HeaderRecoveryAction::ReturnCallResult);
    assert!(recovery.phase == HeaderRecoveryPhase::Finished);
    assert_eq!(recovery.calls_issued, 2);
    let counts = stats.counts("up");
    assert_eq!(counts.mismatches, 1);
    assert_eq!(counts.schema_refreshes, 1);
    assert_eq!(counts.retry_successes, 1);
    assert_eq!(counts.retry_failures, 0);
    assert_eq!(stats.counts("other").mismatches, 0);
}

#[test]
fn other_failures_and_failed_refreshes_are_not_retried() {
    let mut stats = HeaderRecoveryStats::new();
    let mut recovery = HeaderRecovery::start();
    let action = recovery.step(
        &mut stats,
        "up",
        HeaderRecoveryEvent::CallReturned(CallOutcome::Failed { mcp_error_code: Some(-32602) }),
    );
    assert!(action == HeaderRecoveryAction::ReturnCallResult);
    assert_eq!(recovery.calls_issued, 1);
    assert_eq!(stats.counts("up").mismatches, 0);

    let mut recovery = HeaderRecovery::start();
    recovery.step(
        &mut stats,
        "up",
        HeaderRecoveryEvent::CallReturned(CallOutcome::Failed { mcp_error_code: Some(-32020) }),
    );
    let action = recovery.step(&mut stats, "up", HeaderRecoveryEvent::RefreshReturned { ok: false });
    assert!(action == HeaderRecoveryAction::ReturnRefreshError);
    assert_eq!(recovery.calls_issued, 1);

    let mut recovery = HeaderRecovery::start();
    recovery.step(
        &mut stats,
        "up",
        HeaderRecoveryEvent::CallReturned(CallOutcome::Failed { mcp_error_code: Some(-32020) }),
    );
    recovery.step(&mut stats, "up", HeaderRecoveryEvent::RefreshReturned { ok: true });
    recovery.step(
        &mut stats,
        "up",
        HeaderRecoveryEvent::CallReturned(CallOutcome::Failed { mcp_error_code: Some(-32020) }),
    );
    assert!(recovery.phase == HeaderRecoveryPhase::Finished);
    assert_eq!(stats.counts("up").retry_failures, 1);
    assert_eq!(stats.counts("up").mismatches, 2);
    assert!(!is_tool_header_mismatch(None));
}

#[test]
fn hidden_tools_are_refused_like_unknown_tools() {
    let cfg = config("linear", Some(vec!["fill_*"]), None);
    assert!(subject_scoped_call_refusal(&cfg, "fill_handoff").is_none());
    let refusal = subject_scoped_call_refusal(&cfg, "delete_everything").expect("hidden");
    assert_eq!(refusal.code, -32601);
    assert_eq!(refusal.message, "upstream `linear` does not expose tool `delete_everything`");
    assert_eq!(hidden_tool_error(&cfg, "x"), "upstream `linear` does not expose tool `x`");

    let broken = config("broken", Some(vec![""]), None);
    assert!(subject_scoped_call_refusal(&broken, "anything").is_some());
}

#[test]
fn exact_subject_tool_resolution_applies_the_allowlist() {
    let cfg = config("linear", Some(vec!["fill_*"]), None);
    let found = subject_scoped_upstream_tool_allowed(&cfg, Some(descriptor("fill_a"))).expect("exposed");
    assert_eq!(found.upstream_name, "linear");
    assert!(subject_scoped_upstream_tool_allowed(&cfg, Some(descriptor("other"))).is_none());
    assert!(subject_scoped_upstream_tool_allowed(&cfg, None).is_none());
    let mut plain = config("linear", None, None);
    plain.oauth = false;
    assert!(subject_scoped_upstream_tool_allowed(&plain, Some(descriptor("fill_a"))).is_none());
}

#[test]
fn ranked_selection_keeps_the_best_scores_and_skips_zero() {
    let tools = vec![routed("up", "c"), routed("up", "a"), routed("up", "b"), routed("up", "d")];
    let scores = vec![5, 0, 5, 9];
    let (selected, inspected, exhausted) = rank_scored_tools(&tools, &scores, 2, 10);
    let names: Vec<(&str, u16)> = selected.iter().map(|(t, s)| (t.tool.name.as_str(), *s)).collect();
    assert_eq!(names, vec![("d", 9), ("b", 5)]);
    assert_eq!(inspected, 4);
    assert!(!exhausted);

    let (selected, inspected, exhausted) = rank_scored_tools(&tools, &scores, 5, 2);
    let names: Vec<&str> = selected.iter().map(|(t, _)| t.tool.name.as_str()).collect();
    assert_eq!(names, vec!["c"]);
    assert_eq!(inspected, 2);
    assert!(exhausted);
}

#[test]
fn ranked_selection_of_an_unroutable_upstream_is_empty() {
    let catalog = vec![entry("up", vec!["a", "b"], false), entry("ok", vec!["x"], true)];
    let (selected, inspected, exhausted) =
        healthy_tools_for_upstream_ranked_bounded(&catalog, "up", 5, 5, &Vec::new());
    assert!(selected.is_empty());
    assert_eq!(inspected, 0);
    assert!(!exhausted);
    let (selected, _, _) = healthy_tools_for_upstream_ranked_bounded(&catalog, "ok", 5, 5, &vec![3]);
    assert_eq!(selected.len(), 1);
    assert_eq!(selected[0].1, 3);
}

#[test]
fn concurrent_subscription_refreshes_are_coalesced() {
    let mut pending = PendingSubscriptionRefreshes::new();
    let first = pending.claim(vec!["b".to_string(), "a".to_string(), "b".to_string()]);
    assert_eq!(first, vec!["a".to_string(), "b".to_string()]);
    let second = pending.claim(vec!["a".to_string(), "c".to_string()]);
    assert_eq!(second, vec!["c".to_string()]);
    let third = pending.claim(vec!["a".to_string()]);
    assert!(third.is_empty());
    pending.release(&first);
    assert!(!pending.is_pending("a"));
    assert!(pending.is_pending("c"));
    assert_eq!(pending.claim(vec!["a".to_string()]), vec!["a".to_string()]);
    assert!(subscription_refresh_required(false, false));
    assert!(subscription_refresh_required(true, true));
    assert!(!subscription_refresh_required(false, true));
}

#[test]
fn a_completed_call_never_sends_a_cancellation() {
    let mut done = CancelUpstreamOnDrop::armed("up", 7);
    done.disarm();
    assert!(done.on_drop(true) == DropAction::Nothing);

    let mut abandoned = CancelUpstreamOnDrop::armed("up", 8);
    assert!(abandoned.on_drop(true) == DropAction::NotifyCancelled);
    assert!(abandoned.on_drop(true) == DropAction::Nothing);

    let mut teardown = CancelUpstreamOnDrop::armed("up", 9);
    assert!(teardown.on_drop(false) == DropAction::Nothing);
    assert_eq!(CANCEL_REASON, "downstream caller cancelled the request");
    assert_eq!(CancelDelivery::TimedOut.outcome(), "timeout");
    assert!(!CancelDelivery::Sent.is_warning());
    assert!(CancelDelivery::Failed.is_warning());
}

#[test]
fn call_results_are_classified_for_both_call_flavours() {
    assert!(classify_call_tool(ServerResultKind::CallToolResult).is_ok());
    assert!(classify_call_tool(ServerResultKind::CreateTaskResult).is_err());
    assert!(classify_call_tool_once(ServerResultKind::CreateTaskResult) == Ok(CallToolResponseKind::Task));
    assert!(
        classify_call_tool_once(ServerResultKind::InputRequiredResult)
            == Ok(CallToolResponseKind::InputRequired)
    );
    assert!(classify_call_tool_once(ServerResultKind::Other).is_err());
}

#[test]
fn a_child_that_overstays_is_killed_or_reported() {
    let exited = ExitStatusInfo { code: Some(0), signal: None, success: true };
    match decide_after_wait(FirstWait::Exited(exited), true) {
        WaitDecision::Done(e) => assert!(e.status.is_some() && !e.killed_after_timeout),
        WaitDecision::KillAndReap => panic!("an exited child is not killed"),
    }
    assert!(matches!(decide_after_wait(FirstWait::TimedOut, true), WaitDecision::KillAndReap));
    match decide_after_wait(FirstWait::TimedOut, false) {
        WaitDecision::Done(e) => {
            assert_eq!(e.wait_error.as_deref(), Some("child did not exit within 3000ms"))
        }
        WaitDecision::KillAndReap => panic!("no kill was asked for"),
    }
    let killed = exit_after_kill(None, None);
    assert!(killed.killed_after_timeout);
    assert!(!termination_is_routine(true, &killed, 0));
    let clean = ChildExit { status: Some(exited), wait_error: None, killed_after_timeout: false };
    assert!(termination_is_routine(true, &clean, 0));
    assert!(!termination_is_routine(true, &clean, 1));
    assert!(!termination_is_routine(false, &clean, 0));
    let mut slot = ChildSlot { present: true };
    assert!(slot.finish());
    assert!(!slot.finish());
}

#[test]
fn backoff_grows_and_stays_capped() {
    let mut entry = CachedSkills::new(UpstreamSkills::empty(), NOW);
    let mut delays = Vec::new();
    for _ in 0..6 {
        assert!(entry.begin_refresh(NOW + 1_000_000));
        entry.fail_refresh(NOW);
        delays.push(entry.retry_after(NOW).expect("delay"));
    }
    assert_eq!(delays, vec![5_000, 10_000, 20_000, 40_000, 60_000, 60_000]);
    assert!(delays.iter().all(|d| *d <= SKILLS_REFRESH_BACKOFF_MAX_MS));
}

#[test]
fn an_invalidated_fetch_cannot_repopulate_the_cache() {
    let mut store = SkillsStore::new();
    let epoch = store.skills_cache_epoch("up");
    store.invalidate_upstream_skills("up");
    let entry = CachedSkills::new(UpstreamSkills::empty(), NOW);
    assert!(!store.store_skills("up", None, epoch, entry, NOW));
    assert!(store.slots.is_empty());

    let epoch = store.skills_cache_epoch("up");
    let entry = CachedSkills::new(UpstreamSkills::empty(), NOW);
    assert!(store.store_skills("up", None, epoch, entry, NOW));
    assert_eq!(store.upstreams_with_cached_skills(), vec!["up".to_string()]);

    let other_epoch = store.skills_cache_epoch("other");
    assert_eq!(store.clear_all_cached_skills(), 1);
    let entry = CachedSkills::new(UpstreamSkills::empty(), NOW);
    assert!(!store.store_skills("other", None, other_epoch, entry, NOW));
}

#[test]
fn invalidating_one_upstream_keeps_the_others() {
    let mut store = SkillsStore::new();
    for (name, subject) in [("a", None), ("b", Some("alice")), ("a", Some("bob"))] {
        let epoch = store.skills_cache_epoch(name);
        let entry = CachedSkills::new(UpstreamSkills::empty(), NOW);
        assert!(store.store_skills(name, subject, epoch, entry, NOW));
    }
    assert_eq!(store.slots.len(), 3);
    store.invalidate_upstream_skills("a");
    assert_eq!(store.upstreams_with_cached_skills(), vec!["b".to_string()]);
    assert!(store.cached_skills("b", Some("alice"), NOW, true).is_some());
    assert!(store.cached_skills("b", None, NOW, true).is_none());
}

#[test]
fn one_refresh_runs_per_shard_and_a_dead_refresh_is_failed() {
    let mut store = SkillsStore::new();
    let epoch = store.skills_cache_epoch("up");
    let entry = CachedSkills::new(UpstreamSkills::empty(), NOW);
    store.store_skills("up", None, epoch, entry, NOW);
    assert!(store.begin_shard_refresh("up", None, NOW));
    assert!(!store.begin_shard_refresh("up", None, NOW));
    assert!(!store.begin_shard_refresh("missing", None, NOW));
    let mut guard = RefreshStateGuard::new();
    assert!(guard.on_drop(true));
    store.fail_shard_refresh("up", None, NOW);
    assert!(!store.slots[0].entry.refreshing);
    let mut finished = RefreshStateGuard::new();
    finished.disarm();
    assert!(!finished.on_drop(true));
}

#[test]
fn fetched_skills_are_refused_on_collision_limit_or_missing_shard() {
    let mut store = SkillsStore::new();
    let owned = |s: &SkillRecord| vec![s.uri.clone()];
    let lone = skill("lone");
    assert!(
        store.store_direct_skill("up", None, lone.duplicate(), owned(&lone), 4, NOW)
            == Err(DirectStoreError::CacheMissing)
    );

    let mut listed = UpstreamSkills::empty();
    listed.skills.push(skill("listed"));
    listed.resource_index = labby_gateway::skills_list::build_resource_index(&listed.skills);
    let epoch = store.skills_cache_epoch("up");
    store.store_skills("up", None, epoch, CachedSkills::new(listed, NOW), NOW);

    let shadow = skill("listed");
    assert!(
        store.store_direct_skill("up", None, shadow.duplicate(), owned(&shadow), 4, NOW)
            == Err(DirectStoreError::Collision)
    );
    let first = skill("first");
    assert!(store.store_direct_skill("up", None, first.duplicate(), owned(&first), 1, NOW).is_ok());
    let second = skill("second");
    assert!(
        store.store_direct_skill("up", None, second.duplicate(), owned(&second), 1, NOW)
            == Err(DirectStoreError::LimitExceeded)
    );
    let policy = ExposurePolicy::All;
    let cached = store.cached_direct_skill("up", None, &first.uri, &policy, NOW).expect("cached");
    assert_eq!(cached.name, "first");
    let hidden = ExposurePolicy::from_patterns(vec!["other*".to_string()]).expect("policy");
    assert!(store.cached_direct_skill("up", None, &first.uri, &hidden, NOW).is_none());
}

#[test]
fn a_fetched_skill_must_be_exposed_and_be_the_one_asked_for() {
    let cfg = config("up", None, Some(vec!["review-*"]));
    let good = skill("review-pr");
    assert!(judge_fetched_skill(&cfg, &good.uri, &good) == FetchedSkillVerdict::Admit);
    assert!(judge_fetched_skill(&cfg, "skill://up/other/SKILL.md", &good) == FetchedSkillVerdict::IdentityMismatch);
    let hidden = skill("deploy");
    assert!(judge_fetched_skill(&cfg, &hidden.uri, &hidden) == FetchedSkillVerdict::Hidden);
}

fn cached_catalog(names: &[&str]) -> CachedSkills {
    let mut skills = UpstreamSkills::empty();
    for n in names {
        skills.skills.push(skill(n));
    }
    CachedSkills::new(skills, NOW)
}

#[test]
fn exposure_is_applied_on_every_read() {
    let cfg = config("up", None, Some(vec!["review-*"]));
    let cached = cached_catalog(&["deploy", "review-pr", "review-docs"]);
    let exposed = apply_skill_exposure(&cfg, &cached, SkillDiscoverySource::Cached, NOW + 2_500);
    assert_eq!(exposed.exposed_indices, vec![1, 2]);
    assert_eq!(exposed.age_secs, 2);
    assert_eq!(exposed.ttl_ms, Some(300_000 - 2_500));

    let operator = upstream_skills_operator(&cfg, &exposed, Some(true));
    assert_eq!(operator.skills.len(), 3);
    assert!(!operator.skills[0].exposure.exposed);
    assert!(operator.skills[1].exposure.exposed);

    let result = discover_result(&exposed, 1);
    assert_eq!(result.skill_indices, vec![1]);
    assert!(result.truncated);
    assert_eq!(result.cache_age_secs, Some(2));
    assert_eq!(find_listed_skill(&exposed, "skill://up/review-docs/SKILL.md"), Some(2));
    assert_eq!(find_listed_skill(&exposed, "skill://up/deploy/SKILL.md"), None);
    assert_eq!(ExposedSkills::empty().exposed_indices.len(), 0);
}

#[test]
fn skills_are_not_fetched_at_all_unless_the_upstream_opts_in() {
    let mut cfg = config("up", None, None);
    cfg.proxy_skills = false;
    let cached = cached_catalog(&["alpha"]);
    for held in [None, Some(&cached)] {
        match upstream_skills(&cfg, held, NOW) {
            UpstreamSkillsStep::Answer(exposed) => {
                assert!(exposed.exposed_indices.is_empty());
                assert!(exposed.catalog.skills.is_empty());
            }
            _ => panic!("opt-out must not touch the wire"),
        }
    }
    cfg.proxy_skills = true;
    assert!(matches!(upstream_skills(&cfg, None, NOW), UpstreamSkillsStep::Fetch));
    match upstream_skills(&cfg, Some(&cached), NOW + 1_000) {
        UpstreamSkillsStep::Answer(exposed) => assert_eq!(exposed.exposed_indices, vec![0]),
        _ => panic!("a fresh snapshot is answered"),
    }
    match upstream_skills(&cfg, Some(&cached), NOW + 300_000) {
        UpstreamSkillsStep::AnswerAndRefresh(exposed) => assert_eq!(exposed.catalog.skills.len(), 1),
        _ => panic!("an expired snapshot is answered and refreshed"),
    }
}

#[test]
fn reads_are_served_fresh_stale_or_fetched() {
    let cached = cached_catalog(&[]);
    assert!(snapshot_plan(Some(&cached), NOW) == SnapshotPlan::ServeCached);
    assert!(snapshot_plan(Some(&cached), NOW + 10_000_000) == SnapshotPlan::ServeCachedAndRefresh);
    assert!(snapshot_plan(None, NOW) == SnapshotPlan::Fetch);
    assert!(plan_after_fetch_lock(true) == SnapshotPlan::ServeCached);
    assert!(plan_after_fetch_lock(false) == SnapshotPlan::Fetch);
}

#[test]
fn provider_requests_are_checked_and_read_errors_mapped() {
    let own = SkillProviderId::new(SkillProviderKind::McpUpstream, "docs");
    let other = SkillProviderId::new(SkillProviderKind::McpUpstream, "private");
    assert!(validate_provider(&own, &other) == Err(SkillProviderError::WrongProvider));
    assert!(validate_provider(&own, &SkillProviderId::new(SkillProviderKind::McpUpstream, "docs")).is_ok());
    assert!(
        map_skill_read_error(SkillReadError::TooLarge("big".to_string()), 64)
            == SkillProviderError::LimitExceeded { limit: 64 }
    );
    assert!(map_skill_read_error(SkillReadError::Integrity("x".to_string()), 64) == SkillProviderError::Integrity);
    assert!(map_skill_read_error(SkillReadError::Stale("x".to_string()), 64) == SkillProviderError::ManifestStale);
}

#[test]
fn provider_recovers_only_exposed_owners_within_its_own_shard() {
    let mut store = SkillsStore::new();
    let mut listed = UpstreamSkills::empty();
    listed.skills.push(skill("listed"));
    listed.resource_index = labby_gateway::skills_list::build_resource_index(&listed.skills);
    let epoch = store.skills_cache_epoch("up");
    assert!(store.store_skills("up", Some("alice"), epoch, CachedSkills::new(listed, NOW), NOW));
    let fetched = skill("review-pr");
    assert!(store
        .store_direct_skill("up", Some("alice"), fetched.duplicate(), vec![fetched.uri.clone()], 4, NOW)
        .is_ok());

    let alice = SepSkillProvider::new(config("up", None, Some(vec!["review-*"])), Some("alice".to_string()), 30_000);
    assert_eq!(alice.id.name, "up");
    assert!(alice.id.kind == SkillProviderKind::McpUpstream);
    let owner = alice.cached_owner_for_resource(&mut store, &fetched.uri, NOW).expect("owner");
    assert_eq!(owner.name, "review-pr");
    assert!(alice.cached_owner_for_resource(&mut store, "skill://up/listed/SKILL.md", NOW).is_none());

    let bob = SepSkillProvider::new(config("up", None, None), Some("bob".to_string()), 30_000);
    assert!(bob.cached_owner_for_resource(&mut store, &fetched.uri, NOW).is_none());
    let mut plain = config("up", None, None);
    plain.oauth = false;
    let mut plain_bob = config("up", None, None);
    plain_bob.oauth = false;
    let plain_alice = SepSkillProvider::new(plain, Some("alice".to_string()), 30_000);
    assert!(plain_alice.cached_owner_for_resource(&mut store, &fetched.uri, NOW).is_some());
    let plain_bob = SepSkillProvider::new(plain_bob, Some("bob".to_string()), 30_000);
    assert!(plain_bob.cached_owner_for_resource(&mut store, &fetched.uri, NOW).is_none());
    let narrow = SepSkillProvider::new(config("up", None, Some(vec!["deploy"])), Some("alice".to_string()), 30_000);
    assert!(narrow.cached_owner_for_resource(&mut store, &fetched.uri, NOW).is_none());

    assert_eq!(alice.operation_timeout(5_000), 5_000);
    assert_eq!(alice.operation_timeout(60_000), 30_000);
    let other = SkillProviderId::new(SkillProviderKind::McpUpstream, "elsewhere");
    assert!(alice.validate_provider(&other) == Err(SkillProviderError::WrongProvider));
    let same = SkillProviderId::new(SkillProviderKind::McpUpstream, "up");
    assert!(alice.validate_provider(&same).is_ok());
}

#[test]
fn invalidating_an_upstreams_skills_clears_its_shards_and_its_entry() {
    let mut store = SkillsStore::new();
    for (name, subject) in [("a", Some("alice")), ("a", Some("bob")), ("b", None)] {
        let epoch = store.skills_cache_epoch(name);
        assert!(store.store_skills(name, subject, epoch, CachedSkills::new(UpstreamSkills::empty(), NOW), NOW));
    }
    let mut catalog = vec![entry("a", vec!["t"], true), entry("b", vec!["t"], true)];
    record_skills_listing(&mut catalog[0], true, 2, vec!["review".to_string()]);
    record_skills_listing(&mut catalog[1], true, 1, vec!["deploy".to_string()]);
    let before = store.skills_cache_epoch("a");
    invalidate_upstream_skills_everywhere(&mut store, &mut catalog, "a");
    assert_eq!(store.skills_cache_epoch("a"), before + 1);
    assert_eq!(store.upstreams_with_cached_skills(), vec!["b".to_string()]);
    assert_eq!(catalog[0].skill_count, 0);
    assert!(catalog[0].skill_names.is_empty());
    assert_eq!(catalog[1].skill_count, 1);
    invalidate_upstream_skills_everywhere(&mut store, &mut catalog, "missing");
    assert_eq!(catalog[1].skill_names, vec!["deploy".to_string()]);
}
