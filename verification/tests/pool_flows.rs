use base64::Engine;
use labby_gateway::exposure::ExposurePolicy;
use labby_gateway::skills_cache::{ExcludedSkill, SkillRecord, SkillResourceEntry, UpstreamSkills};
use labby_gateway::skills_list::{build_resource_index, PageOutcome, SkillsPage, SkillsWalk, WalkStep};
use labby_gateway::skills_read::{
    decode_single_content, resolve_direct_binding, resolve_listed_binding, stale_skill_binding,
    verify_skill_content, DigestVerdict, FrontmatterVerdict, ListedBinding, SkillContent, SkillReadError,
};
use labby_gateway::stderr::{StdioConnectError, StdioDiagnostics};
use labby_gateway::subject_tools::{ScanStep, ScannedTool, SubjectToolsScan};
use labby_gateway::task_route::{OauthRouteFilter, TaskRoute, TaskRouteAuthorization, TaskRoutes};
use labby_gateway::tool_catalog::ToolDescriptor;

fn skill(name: &str, files: &[&str]) -> SkillRecord {
    SkillRecord {
        name: name.to_string(),
        uri: format!("skill://up/{name}/SKILL.md"),
        resources: files
            .iter()
            .map(|f| SkillResourceEntry {
                uri: format!("skill://up/{name}/{f}"),
                size: 3,
                digest: "sha256:00".to_string(),
            })
            .collect(),
    }
}

fn excluded(uri: &str) -> ExcludedSkill {
    ExcludedSkill { reason: "invalid_name".to_string(), uri: uri.to_string(), detail: String::new() }
}

fn page(entries: Vec<Result<SkillRecord, ExcludedSkill>>, ttl: Option<u64>, cursor: Option<&str>) -> SkillsPage {
    SkillsPage {
        entries,
        ttl_ms: ttl,
        cache_scope: Some("user".to_string()),
        next_cursor: cursor.map(str::to_string),
    }
}

#[test]
fn a_skills_walk_follows_cursors_and_keeps_the_smallest_ttl() {
    let mut walk = SkillsWalk::new(5, 10, 10, 1_000);
    assert!(matches!(walk.next_request(0), WalkStep::Request(None)));
    let first = page(vec![Ok(skill("a", &["SKILL.md"])), Err(excluded("skill://up/bad"))], Some(60_000), Some("p2"));
    assert!(matches!(walk.on_page(first), PageOutcome::Continue));
    assert!(matches!(walk.next_request(0), WalkStep::Request(Some(ref c)) if c == "p2"));
    let second = page(vec![Ok(skill("b", &["SKILL.md"]))], Some(30_000), None);
    assert!(matches!(walk.on_page(second), PageOutcome::Done));
    assert_eq!(walk.out.skills.len(), 2);
    assert_eq!(walk.out.excluded.len(), 1);
    assert_eq!(walk.out.discovered_count, 3);
    assert_eq!(walk.out.ttl_ms, Some(30_000));
    assert!(!walk.out.truncated);
}

#[test]
fn a_skills_walk_stops_at_budgets_and_repeated_cursors() {
    let mut capped = SkillsWalk::new(5, 1, 10, 1_000);
    let entries = vec![Ok(skill("a", &[])), Ok(skill("b", &[])), Ok(skill("c", &[]))];
    assert!(matches!(capped.on_page(page(entries, None, Some("next"))), PageOutcome::Done));
    assert!(capped.out.truncated);
    assert_eq!(capped.out.skills.len(), 1);
    assert_eq!(capped.out.discovered_count, 3);

    let mut late = SkillsWalk::new(5, 10, 10, 1_000);
    assert!(matches!(late.next_request(1_000), WalkStep::Done));
    assert!(late.out.truncated);

    let mut looping = SkillsWalk::new(5, 10, 10, 1_000);
    assert!(matches!(looping.on_page(page(vec![], None, Some("same"))), PageOutcome::Continue));
    assert!(matches!(looping.on_page(page(vec![], None, Some("same"))), PageOutcome::Done));
    assert!(looping.out.truncated);

    let mut one_page = SkillsWalk::new(1, 10, 10, 1_000);
    assert!(matches!(one_page.on_page(page(vec![], None, Some("more"))), PageOutcome::Continue));
    assert!(matches!(one_page.next_request(0), WalkStep::Done));
    assert!(one_page.out.truncated);
}

#[test]
fn bounded_discovery_stops_before_following_another_page() {
    let mut preview = SkillsWalk::preview(5, 1, 4, 1_000);
    assert!(matches!(preview.next_request(0), WalkStep::Request(None)));
    let first = page(vec![Ok(skill("alpha", &["SKILL.md"]))], None, Some("second"));
    assert!(matches!(preview.on_page(first), PageOutcome::Done));
    assert_eq!(preview.out.skills.len(), 1);
    assert!(preview.out.truncated);

    let mut full = SkillsWalk::new(5, 1, 4, 1_000);
    let first = page(vec![Ok(skill("alpha", &["SKILL.md"]))], None, Some("second"));
    assert!(matches!(full.on_page(first), PageOutcome::Continue));
    assert!(!full.out.truncated);

    let mut last_page = SkillsWalk::preview(5, 1, 4, 1_000);
    let only = page(vec![Ok(skill("alpha", &["SKILL.md"]))], None, None);
    assert!(matches!(last_page.on_page(only), PageOutcome::Done));
    assert!(!last_page.out.truncated);
}

#[test]
fn a_skills_walk_fails_when_the_cache_scope_changes() {
    let mut walk = SkillsWalk::new(5, 10, 10, 1_000);
    assert!(matches!(walk.on_page(page(vec![], None, Some("p2"))), PageOutcome::Continue));
    let mut other = page(vec![], None, None);
    other.cache_scope = Some("shared".to_string());
    match walk.on_page(other) {
        PageOutcome::Failed(m) => {
            assert_eq!(m, "skills/list changed cacheScope from `user` to `shared` mid-pagination")
        }
        _ => panic!("a scope change fails the walk"),
    }
}

#[test]
fn skill_files_bind_to_exactly_one_exposed_listed_entry() {
    let mut skills = UpstreamSkills::empty();
    skills.skills.push(skill("review", &["SKILL.md", "guide.md"]));
    skills.skills.push(skill("deploy", &["SKILL.md"]));
    skills.resource_index = build_resource_index(&skills.skills);
    let all = ExposurePolicy::All;
    assert_eq!(
        resolve_listed_binding(&skills, &all, None, "skill://up/review/guide.md"),
        ListedBinding::Bound { skill: 0, resource: 1 }
    );
    let review_only = ExposurePolicy::from_patterns(vec!["review".to_string()]).expect("policy");
    assert_eq!(
        resolve_listed_binding(&skills, &review_only, None, "skill://up/deploy/SKILL.md"),
        ListedBinding::Stale
    );
    assert_eq!(
        resolve_listed_binding(&skills, &all, Some("skill://up/other/SKILL.md"), "skill://up/other/x.md"),
        ListedBinding::TryDirect
    );
    let direct = skill("other", &["SKILL.md", "x.md"]);
    assert_eq!(resolve_direct_binding(&direct, "skill://up/other/x.md"), Some(1));
    assert_eq!(resolve_direct_binding(&direct, "skill://up/other/y.md"), None);
    assert_eq!(
        stale_skill_binding("up", "skill://up/x"),
        SkillReadError::Stale("`skill://up/x` on upstream `up` does not identify exactly one exposed skill file".to_string())
    );
}

#[test]
fn a_skill_read_decodes_exactly_one_block() {
    let encoded = base64::engine::general_purpose::STANDARD.encode(b"abc");
    let blob = vec![SkillContent::Blob { blob: encoded, mime_type: Some("application/octet-stream".to_string()) }];
    let decoded = decode_single_content("up", blob).expect("decodes");
    assert_eq!(decoded.bytes, b"abc".to_vec());
    assert!(decoded.is_blob);

    let text = vec![SkillContent::Text { text: "hi".to_string(), mime_type: None }];
    let decoded = decode_single_content("up", text).expect("text");
    assert_eq!(decoded.bytes, b"hi".to_vec());
    assert!(!decoded.is_blob);

    let bad = vec![SkillContent::Blob { blob: "@@@".to_string(), mime_type: None }];
    assert_eq!(
        decode_single_content("up", bad).err(),
        Some(SkillReadError::Integrity(
            "upstream `up` returned malformed base64 for a skill resource".to_string()
        ))
    );
    let two = vec![
        SkillContent::Text { text: "a".to_string(), mime_type: None },
        SkillContent::Text { text: "b".to_string(), mime_type: None },
    ];
    assert_eq!(
        decode_single_content("up", two).err(),
        Some(SkillReadError::Integrity("upstream `up` returned 2 content blocks for one skill file".to_string()))
    );
    assert_eq!(
        decode_single_content("up", vec![SkillContent::Unsupported]).err(),
        Some(SkillReadError::Integrity(
            "upstream returned an unsupported skill resource representation".to_string()
        ))
    );
}

#[test]
fn a_served_skill_file_is_checked_against_its_manifest() {
    let uri = "skill://up/review/SKILL.md";
    let ok = verify_skill_content("up", uri, 3, Some(10), 3, DigestVerdict::Match, true, false, FrontmatterVerdict::Agrees);
    assert_eq!(ok, Ok(()));
    let big = verify_skill_content("up", uri, 30, Some(10), 30, DigestVerdict::Match, false, false, FrontmatterVerdict::Agrees);
    assert!(matches!(big, Err(SkillReadError::TooLarge(_))));
    let size = verify_skill_content("up", uri, 4, None, 3, DigestVerdict::Match, false, false, FrontmatterVerdict::Agrees);
    assert_eq!(
        size,
        Err(SkillReadError::Integrity(
            "content of `skill://up/review/SKILL.md` from upstream `up` is 4 bytes but its entry declared 3".to_string()
        ))
    );
    let digest = verify_skill_content("up", uri, 3, None, 3, DigestVerdict::Mismatch, false, false, FrontmatterVerdict::Agrees);
    assert_eq!(
        digest,
        Err(SkillReadError::Integrity(
            "content of `skill://up/review/SKILL.md` from upstream `up` does not match the digest its entry published".to_string()
        ))
    );
    let blob_md = verify_skill_content("up", uri, 3, None, 3, DigestVerdict::Match, true, true, FrontmatterVerdict::Agrees);
    assert_eq!(
        blob_md,
        Err(SkillReadError::Integrity("`SKILL.md` from upstream `up` must be an MCP text resource".to_string()))
    );
    let front = verify_skill_content("up", uri, 3, None, 3, DigestVerdict::Match, true, false, FrontmatterVerdict::Disagrees);
    assert_eq!(
        front,
        Err(SkillReadError::Integrity(
            "`SKILL.md` from upstream `up` disagrees with the frontmatter its entry published".to_string()
        ))
    );
    let unusable = verify_skill_content("up", uri, 3, None, 3, DigestVerdict::Unusable, false, false, FrontmatterVerdict::Agrees);
    assert_eq!(
        unusable,
        Err(SkillReadError::Integrity("upstream `up` published an unusable digest".to_string()))
    );
}

#[test]
fn connect_errors_carry_the_stderr_tail() {
    let mut diagnostics = StdioDiagnostics::new();
    diagnostics.push("first".to_string());
    diagnostics.push("second".to_string());
    let tail = diagnostics.snapshot_text();
    assert_eq!(tail, "first\nsecond");

    let error = StdioConnectError::with_diagnostics(anyhow::Error::msg("handshake failed"), tail, true);
    assert!(error.child_exited());
    assert_eq!(error.diagnostics_with_error(), "handshake failed\nfirst\nsecond");
    assert_eq!(error.protocol_error().to_string(), "handshake failed");
    let chained = error.into_anyhow();
    assert_eq!(format!("{chained:#}"), "upstream stderr:\nfirst\nsecond: handshake failed");

    let bare = StdioConnectError::without_diagnostics(anyhow::Error::msg("refused"));
    assert!(!bare.child_exited());
    assert_eq!(bare.diagnostics_with_error(), "refused");
    assert_eq!(bare.into_anyhow().to_string(), "refused");
}

#[test]
fn the_diagnostic_tail_keeps_the_newest_lines() {
    let mut diagnostics = StdioDiagnostics::new();
    for i in 0..100 {
        diagnostics.push(format!("line {i}"));
    }
    let tail = diagnostics.snapshot_text();
    let lines: Vec<&str> = tail.lines().collect();
    assert_eq!(lines.len(), 80);
    assert_eq!(lines[0], "line 20");
    assert_eq!(lines[79], "line 99");
}

fn tool(name: &str, bytes: usize) -> ToolDescriptor {
    ToolDescriptor {
        name: name.to_string(),
        description: None,
        serialized_bytes: bytes,
        has_input_schema: false,
        ui_resource_uri: None,
        openai_output_template: None,
        ui_visible_to_app: false,
        openai_widget_accessible: false,
    }
}

fn scanned(name: &str, bytes: usize) -> ScannedTool {
    ScannedTool { tool: tool(name, bytes), selected: true }
}

#[test]
fn subject_scoped_enumeration_is_bounded_sorted_and_fails_closed() {
    assert!(SubjectToolsScan::start(300, Some(5), false, usize::MAX).is_none());

    let mut scan = SubjectToolsScan::start(2, Some(2), false, usize::MAX).expect("scan");
    let beta = vec![scanned("zeta", 1), scanned("alpha", 1)];
    assert_eq!(scan.ingest_result(&"beta".to_string(), &ExposurePolicy::All, Some(&beta)), ScanStep::Continue);
    let alpha = vec![scanned("mid", 1)];
    assert_eq!(scan.ingest_result(&"alpha".to_string(), &ExposurePolicy::All, Some(&alpha)), ScanStep::Continue);
    let result = scan.finish();
    let total: usize = result.tools.iter().map(|(_, tools)| tools.len()).sum();
    assert_eq!(total, 2);
    assert_eq!(result.inspected, 3);
    assert!(result.incomplete);
    let names: Vec<&str> = result
        .tools
        .iter()
        .flat_map(|(_, tools)| tools.iter().map(|t| t.name.as_str()))
        .collect();
    assert!(names.contains(&"alpha") && names.contains(&"mid"));

    let mut tight = SubjectToolsScan::start(1, Some(5), false, 5).expect("scan");
    let heavy = vec![scanned("big", 10)];
    assert_eq!(tight.ingest_result(&"up".to_string(), &ExposurePolicy::All, Some(&heavy)), ScanStep::Failed);

    let mut unbounded = SubjectToolsScan::start(1, None, false, usize::MAX).expect("scan");
    assert_eq!(unbounded.ingest_result(&"up".to_string(), &ExposurePolicy::All, None), ScanStep::Continue);
    assert!(unbounded.needs_fanout(true, true, false));
    assert!(!unbounded.needs_fanout(true, false, false));
    unbounded.timed_out();
    assert!(unbounded.finish().incomplete);
}

fn route(upstream: &str, caller: Option<&str>, auth: TaskRouteAuthorization, now: u64) -> TaskRoute {
    TaskRoute {
        upstream_name: upstream.to_string(),
        native_task_id: "native-1".to_string(),
        caller_subject: caller.map(str::to_string),
        oauth_subject: Some("alice".to_string()),
        authorization: auth,
        last_used_ms: now,
    }
}

#[test]
fn task_handles_resolve_only_for_their_caller() {
    let mut routes = TaskRoutes::new();
    let auth = TaskRouteAuthorization::new("key".to_string(), Some(vec!["up".to_string()]));
    let (handle, removed) = routes.register(route("up", Some("alice"), auth, 1_000), 1_000, &Vec::new());
    assert_eq!(handle, "labby-task-0000000000000001");
    assert!(removed.is_empty());

    let same = TaskRouteAuthorization::new("key".to_string(), Some(vec!["up".to_string()]));
    assert_eq!(
        routes.lookup(&handle, Some("alice"), &same, 1_001, &Vec::new()),
        Ok(("native-1".to_string(), "up".to_string()))
    );
    assert_eq!(
        routes.lookup(&handle, Some("mallory"), &same, 1_002, &Vec::new()),
        Err("task not found".to_string())
    );
    let other_key = TaskRouteAuthorization::new("other".to_string(), Some(vec!["up".to_string()]));
    assert_eq!(
        routes.lookup(&handle, Some("alice"), &other_key, 1_003, &Vec::new()),
        Err("task not found".to_string())
    );
    assert_eq!(
        routes.lookup("labby-task-ffffffffffffffff", Some("alice"), &same, 1_004, &Vec::new()),
        Err("task not found".to_string())
    );

    let removed = routes.invalidate_oauth_routes(&OauthRouteFilter::Subject {
        upstream: "up".to_string(),
        subject: "alice".to_string(),
    });
    assert_eq!(removed.len(), 1);
    assert_eq!(routes.len(), 0);
}

#[test]
fn routed_task_lifecycle_uses_gateway_handle_and_native_upstream_id() {
    let mut routes = TaskRoutes::new();
    let (gateway_task_id, _) = routes
        .register_task_response(true, route("up", Some("alice"), TaskRouteAuthorization::root(), 1_000), 1_000, &Vec::new())
        .expect("task route registers");
    assert_ne!(gateway_task_id, "native-1");
    assert!(gateway_task_id.starts_with("labby-task-"));
    assert!(
        routes.lookup(&gateway_task_id, Some("bob"), &TaskRouteAuthorization::root(), 1_001, &Vec::new()).is_err(),
        "task handles must remain subject-bound"
    );
    let (native, upstream) = routes
        .lookup(&gateway_task_id, Some("alice"), &TaskRouteAuthorization::root(), 1_002, &Vec::new())
        .expect("owner polls task");
    assert_eq!(native, "native-1");
    assert_eq!(upstream, "up");
}

#[test]
fn a_task_without_its_relay_connection_is_refused() {
    let mut routes = TaskRoutes::new();
    let auth = || TaskRouteAuthorization::new("key".to_string(), None);
    assert_eq!(
        routes.register_task_response(false, route("up", Some("alice"), auth(), 1_000), 1_000, &Vec::new()),
        Err("upstream task registration failed".to_string())
    );
    assert_eq!(routes.len(), 0);
    let (handle, removed) = routes
        .register_task_response(true, route("up", Some("alice"), auth(), 1_000), 1_000, &Vec::new())
        .expect("registered");
    assert_eq!(handle, "labby-task-0000000000000001");
    assert_ne!(handle, "native-1");
    assert!(removed.is_empty());
    assert_eq!(
        routes.lookup(&handle, Some("alice"), &auth(), 1_001, &Vec::new()),
        Ok(("native-1".to_string(), "up".to_string()))
    );
}

#[test]
fn a_live_task_keeps_resolving_across_refusals_lookups_and_registrations() {
    let day: u64 = 86_400_000;
    let mut routes = TaskRoutes::new();
    let auth = || TaskRouteAuthorization::new("key".to_string(), None);
    let (a, _) = routes.register(route("up", Some("alice"), auth(), 1_000), 1_000, &Vec::new());
    assert_eq!(
        routes.lookup(&a, Some("mallory"), &auth(), 2_000, &Vec::new()),
        Err("task not found".to_string())
    );
    assert_eq!(routes.len(), 1);
    let (b, pruned) = routes.register(route("up", Some("bob"), auth(), 3_000), 3_000, &Vec::new());
    assert!(pruned.is_empty());
    assert_eq!(routes.len(), 2);
    // A successful lookup refreshes the route's last use ...
    assert!(routes.lookup(&a, Some("alice"), &auth(), day, &Vec::new()).is_ok());
    // ... so it outlives the idle TTL counted from its registration, while
    // the untouched route ages out and is reported as pruned.
    let (_, pruned) = routes.register(route("up", None, auth(), day + 5_000), day + 5_000, &Vec::new());
    assert_eq!(pruned, vec![b.clone()]);
    assert!(routes.lookup(&a, Some("alice"), &auth(), day + 6_000, &Vec::new()).is_ok());
    assert_eq!(routes.lookup(&b, Some("bob"), &auth(), day + 6_000, &Vec::new()), Err("task not found".to_string()));
}
