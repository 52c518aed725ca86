use git_ai::authorship_log::AgentId;
use git_ai::bash_sessions::BashSessionState;
use git_ai::bash_tool::StatSnapshot;
use git_ai::contributors::{ContributorStats, ToolModelContributorStats};
use git_ai::git_status::{fields_tail_of, parse_status_paths};
use git_ai::install_hooks::{
    amp_plugins_note, extra_display, install_metrics_values, parse_install_flags, to_hashmap, uninstall_extra_display, AgentInstallOutcome, ClientInstallOutcome,
    ClosingNotice, ExtraDisplay, ExtraResult, HooksOutcome, InstallResult, InstallRun,
    InstallStatus, UninstallRun,
};
use git_ai::nul_fields::{
    decode_fields, git_failure_message, split_nul, status_changed_files,
    tracked_files_from_ls_files,
};
use git_ai::path_order::{path_lt, paths_equal, sort_paths, within_git_dir};
use git_ai::rebase_mapping::{
    build_rebase_commit_mappings, original_equivalent_for_rewritten_commit, parse_commit_list,
    rebase_mapping_step,
    reverse_commits, walk_first_parent_commits_needed, RebaseMappingEvent, RebaseMappingInputs,
    RebaseMappingRequest, RebaseMappingState, RewriteLogEvent,
};
use git_ai::string_map::StringMap;
use git_ai::sweep::{SweepStrategy, TranscriptFormat, WatermarkType};
use git_ai::text::{has_prefix, head_before_double_colon, join_strings, normalize_to_posix, str_contains};
use git_ai::tool_counts::ToolModelCounts;
use std::time::Duration;

fn strings(list: &[&str]) -> Vec<String> {
    list.iter().map(|s| s.to_string()).collect()
}

// --- rebase mapping ---

fn mapping_inputs(onto: Option<&str>) -> RebaseMappingInputs {
    RebaseMappingInputs {
        original_head: "orig".to_string(),
        new_head: "new".to_string(),
        onto_head: onto.map(|s| s.to_string()),
        onto_is_valid_oid: true,
    }
}

#[test]
fn rewritten_commits_map_back_to_their_originals() {
    let events = vec![
        RewriteLogEvent::Other,
        RewriteLogEvent::CommitAmend {
            original_commit: "a0".to_string(),
            amended_commit_sha: "a1".to_string(),
        },
        RewriteLogEvent::RebaseComplete {
            original_commits: strings(&["o1", "o2"]),
            new_commits: strings(&["n1", "n2", "n3"]),
        },
        RewriteLogEvent::CherryPickComplete {
            source_commits: strings(&["c1"]),
            new_commits: strings(&["n2"]),
        },
    ];
    assert_eq!(original_equivalent_for_rewritten_commit(&events, &"a1".to_string()), Some("a0".to_string()));
    assert_eq!(original_equivalent_for_rewritten_commit(&events, &"n2".to_string()), Some("o2".to_string()));
    // the first event that produced the commit decides, even without a counterpart
    assert_eq!(original_equivalent_for_rewritten_commit(&events, &"n3".to_string()), None);
    assert_eq!(original_equivalent_for_rewritten_commit(&events, &"zz".to_string()), None);
}

#[test]
fn unresolved_onto_is_refused() {
    let mut i = mapping_inputs(Some("main"));
    i.onto_is_valid_oid = false;
    let (state, request) = build_rebase_commit_mappings(&i);
    assert!(matches!(state, RebaseMappingState::Finished));
    match request {
        RebaseMappingRequest::Done(Err(m)) => {
            assert_eq!(m, "rebase mapping expected resolved onto oid, got 'main'")
        }
        other => panic!("unexpected {:?}", other),
    }
}

#[test]
fn mapping_without_onto_walks_from_the_merge_base() {
    let i = mapping_inputs(None);
    let (state, request) = build_rebase_commit_mappings(&i);
    assert!(matches!(request, RebaseMappingRequest::MergeBase));
    let (state, request) =
        rebase_mapping_step(&i, state, RebaseMappingEvent::MergeBase(Ok("mb".to_string())));
    match &request {
        RebaseMappingRequest::WalkToBase(head, base) => {
            assert_eq!(head, "orig");
            assert_eq!(base, "mb");
        }
        other => panic!("unexpected {:?}", other),
    }
    let (state, request) =
        rebase_mapping_step(&i, state, RebaseMappingEvent::Walked(Ok(strings(&["o2", "o1"]))));
    match &request {
        RebaseMappingRequest::WalkFirstParent(head, base, n) => {
            assert_eq!(head, "new");
            assert_eq!(base, "mb");
            assert_eq!(*n, 2);
        }
        other => panic!("unexpected {:?}", other),
    }
    let (state, request) =
        rebase_mapping_step(&i, state, RebaseMappingEvent::Walked(Ok(strings(&["n2", "n1"]))));
    assert!(matches!(state, RebaseMappingState::Finished));
    match request {
        RebaseMappingRequest::Done(Ok((original, new))) => {
            assert_eq!(original, strings(&["o1", "o2"]));
            assert_eq!(new, strings(&["n1", "n2"]));
        }
        other => panic!("unexpected {:?}", other),
    }
}

#[test]
fn mapping_with_onto_uses_the_rewrite_log() {
    let i = mapping_inputs(Some("onto"));
    let (state, _) = build_rebase_commit_mappings(&i);
    let (state, request) =
        rebase_mapping_step(&i, state, RebaseMappingEvent::MergeBase(Ok("mb".to_string())));
    assert!(matches!(request, RebaseMappingRequest::ReadRewriteEvents));
    let events = vec![RewriteLogEvent::CommitAmend {
        original_commit: "onto0".to_string(),
        amended_commit_sha: "onto".to_string(),
    }];
    let (state, request) =
        rebase_mapping_step(&i, state, RebaseMappingEvent::RewriteEvents(Some(events)));
    match &request {
        RebaseMappingRequest::IsAncestor(a, d) => {
            assert_eq!(a, "onto0");
            assert_eq!(d, "orig");
        }
        other => panic!("unexpected {:?}", other),
    }
    let (state, request) = rebase_mapping_step(&i, state, RebaseMappingEvent::IsAncestor(true));
    match &request {
        RebaseMappingRequest::WalkToBase(head, base) => {
            assert_eq!(head, "orig");
            assert_eq!(base, "onto0");
        }
        other => panic!("unexpected {:?}", other),
    }
    let (state, request) =
        rebase_mapping_step(&i, state, RebaseMappingEvent::Walked(Ok(strings(&["o1"]))));
    match &request {
        RebaseMappingRequest::IsAncestor(a, d) => {
            assert_eq!(a, "onto");
            assert_eq!(d, "new");
        }
        other => panic!("unexpected {:?}", other),
    }
    let (state, request) = rebase_mapping_step(&i, state, RebaseMappingEvent::IsAncestor(true));
    match &request {
        RebaseMappingRequest::WalkToBase(head, base) => {
            assert_eq!(head, "new");
            assert_eq!(base, "onto");
        }
        other => panic!("unexpected {:?}", other),
    }
    let (_, request) = rebase_mapping_step(&i, state, RebaseMappingEvent::Walked(Ok(strings(&["n1"]))));
    assert!(matches!(request, RebaseMappingRequest::Done(Ok(_))));
}

#[test]
fn mapping_with_no_original_commits_is_empty() {
    let i = mapping_inputs(None);
    let (state, _) = build_rebase_commit_mappings(&i);
    let (state, _) = rebase_mapping_step(&i, state, RebaseMappingEvent::MergeBase(Ok("mb".to_string())));
    let (_, request) = rebase_mapping_step(&i, state, RebaseMappingEvent::Walked(Ok(vec![])));
    match request {
        RebaseMappingRequest::Done(Ok((o, n))) => {
            assert!(o.is_empty());
            assert!(n.is_empty());
        }
        other => panic!("unexpected {:?}", other),
    }
}

#[test]
fn mapping_reports_git_errors() {
    let i = mapping_inputs(None);
    let (state, _) = build_rebase_commit_mappings(&i);
    let (_, request) =
        rebase_mapping_step(&i, state, RebaseMappingEvent::MergeBase(Err("no base".to_string())));
    assert!(matches!(request, RebaseMappingRequest::Done(Err(e)) if e == "no base"));
}

#[test]
fn first_parent_walk_needed_and_reversal() {
    assert!(!walk_first_parent_commits_needed("a", "a", 3));
    assert!(!walk_first_parent_commits_needed("a", "b", 0));
    assert!(walk_first_parent_commits_needed("a", "b", 1));
    assert_eq!(reverse_commits(strings(&["c", "b", "a"])), strings(&["a", "b", "c"]));
}

#[test]
fn rev_list_output_becomes_commit_ids() {
    assert_eq!(
        parse_commit_list(&b"abc\n  def \r\n\n\tghi".to_vec()),
        Some(strings(&["abc", "def", "ghi"]))
    );
    assert_eq!(parse_commit_list(&vec![]), Some(vec![]));
    assert_eq!(parse_commit_list(&b"ok\n\xff\n".to_vec()), None);
}

#[test]
fn mapping_states_accept_only_their_answers() {
    let i = mapping_inputs(None);
    let (state, _) = build_rebase_commit_mappings(&i);
    assert!(state.accepts(&RebaseMappingEvent::MergeBase(Ok("x".to_string()))));
    assert!(!state.accepts(&RebaseMappingEvent::IsAncestor(true)));
    assert!(!RebaseMappingState::Finished.accepts(&RebaseMappingEvent::Walked(Ok(vec![]))));
}

// --- bash sessions ---

fn snap(key: &str) -> StatSnapshot {
    StatSnapshot {
        entries: vec![],
        tracked_files: vec![],
        gitignore: None,
        invocation_key: key.to_string(),
        repo_root: "/r".to_string(),
    }
}

fn agent() -> AgentId {
    AgentId { tool: "acme".to_string(), id: "s1".to_string(), model: "large".to_string() }
}

#[test]
fn sessions_start_query_and_end() {
    let mut state = BashSessionState::new();
    state.start_session(
        "s1".to_string(),
        "t1".to_string(),
        "/repo/a".to_string(),
        agent(),
        StringMap::new(),
        snap("s1:t1"),
        1_000,
    );
    state.start_session(
        "s1".to_string(),
        "t2".to_string(),
        "/repo/b".to_string(),
        agent(),
        StringMap::new(),
        snap("s1:t2"),
        2_000,
    );
    assert_eq!(state.get_snapshot("s1", "t1").unwrap().invocation_key, "s1:t1");
    assert!(state.get_snapshot("s1", "t3").is_none());
    let (key, session) = state.query_active_for_repo("/repo/b").unwrap();
    assert_eq!(key, &("s1".to_string(), "t2".to_string()));
    assert_eq!(session.repo_work_dir, "/repo/b");
    assert!(state.query_active_for_repo("/repo/c").is_none());
    let ended = state.end_session("s1", "t1").unwrap();
    assert_eq!(ended.stat_snapshot.invocation_key, "s1:t1");
    assert!(state.end_session("s1", "t1").is_none());
    assert!(state.get_snapshot("s1", "t1").is_none());
}

#[test]
fn stale_sessions_are_pruned_when_a_new_one_starts() {
    let mut state = BashSessionState::default();
    state.start_session(
        "old".to_string(),
        "t".to_string(),
        "/repo".to_string(),
        agent(),
        StringMap::new(),
        snap("old:t"),
        0,
    );
    state.start_session(
        "young".to_string(),
        "t".to_string(),
        "/repo".to_string(),
        agent(),
        StringMap::new(),
        snap("young:t"),
        299_000_000_000,
    );
    assert!(state.get_snapshot("old", "t").is_some());
    state.start_session(
        "new".to_string(),
        "t".to_string(),
        "/other".to_string(),
        agent(),
        StringMap::new(),
        snap("new:t"),
        300_000_000_000,
    );
    assert!(state.get_snapshot("old", "t").is_none());
    assert!(state.get_snapshot("young", "t").is_some());
    assert!(state.get_snapshot("new", "t").is_some());
}

#[test]
fn restarting_a_session_replaces_it() {
    let mut state = BashSessionState::new();
    for (dir, key) in [("/a", "k1"), ("/b", "k2")] {
        state.start_session(
            "s".to_string(),
            "t".to_string(),
            dir.to_string(),
            agent(),
            StringMap::new(),
            snap(key),
            5,
        );
    }
    assert_eq!(state.get_snapshot("s", "t").unwrap().invocation_key, "k2");
    assert!(state.query_active_for_repo("/a").is_none());
}

// --- contributors ---

fn contributor(name: &str, ai: u32, breakdown: &[(&str, u32)]) -> ContributorStats {
    let mut m = StringMap::new();
    for (k, v) in breakdown {
        m.insert(
            k.to_string(),
            ToolModelContributorStats { ai_additions: *v, ai_accepted: *v, mixed_additions: 1 },
        );
    }
    ContributorStats {
        name: name.to_string(),
        human_additions: 1,
        manual_additions: 2,
        ai_additions: ai,
        ai_accepted: ai,
        mixed_additions: 0,
        tool_model_breakdown: m,
    }
}

#[test]
fn contributor_counts_merge_by_summing() {
    let mut a = contributor("", 3, &[("acme::large", 2)]);
    let b = contributor("Bob", 4, &[("acme::large", 5), ("cursor::small", 1)]);
    a.merge_from(&b);
    assert_eq!(a.name, "Bob");
    assert_eq!(a.human_additions, 2);
    assert_eq!(a.manual_additions, 4);
    assert_eq!(a.ai_additions, 7);
    assert_eq!(a.ai_accepted, 7);
    let opus = a.tool_model_breakdown.get(&"acme::large".to_string()).unwrap();
    assert_eq!(*opus, ToolModelContributorStats { ai_additions: 7, ai_accepted: 7, mixed_additions: 2 });
    let small = a.tool_model_breakdown.get(&"cursor::small".to_string()).unwrap();
    assert_eq!(small.ai_additions, 1);
    assert_eq!(a.tool_model_breakdown.len(), 2);

    let mut named = contributor("Ann", 0, &[]);
    named.merge_from(&b);
    assert_eq!(named.name, "Ann");
    let copy = named.duplicate();
    assert_eq!(copy.name, "Ann");
    assert_eq!(copy.tool_model_breakdown.len(), 2);
}

// --- sweep ---

#[test]
fn transcript_formats_and_watermarks() {
    assert_eq!(TranscriptFormat::ClaudeJsonl.watermark_type(), WatermarkType::ByteOffset);
    assert_eq!(TranscriptFormat::CopilotEventStreamJsonl.watermark_type(), WatermarkType::ByteOffset);
    assert_eq!(TranscriptFormat::DroidJsonl.watermark_type(), WatermarkType::Hybrid);
    assert_eq!(TranscriptFormat::ContinueJson.watermark_type(), WatermarkType::RecordIndex);
    assert_eq!(TranscriptFormat::AmpThreadJson.watermark_type(), WatermarkType::RecordIndex);
    assert_eq!(TranscriptFormat::OpenCodeSqlite.watermark_type(), WatermarkType::Timestamp);
    assert_eq!(TranscriptFormat::CopilotSessionJson.to_string(), "CopilotSessionJson");
    assert_eq!(TranscriptFormat::PiJsonl.to_string(), "PiJsonl");
    assert_eq!(
        SweepStrategy::Periodic(Duration::from_secs(30)),
        SweepStrategy::Periodic(Duration::from_secs(30))
    );
    assert_ne!(SweepStrategy::FsWatcher, SweepStrategy::Unsupported);
}

// --- git output parsing ---

#[test]
fn nul_fields_split_like_slices() {
    assert_eq!(split_nul(&b"a\0bc\0".to_vec()), vec![b"a".to_vec(), b"bc".to_vec(), vec![]]);
    assert_eq!(split_nul(&vec![]), vec![Vec::<u8>::new()]);
    assert_eq!(decode_fields(&b"x\0\xffy".to_vec()), strings(&["x", "\u{FFFD}y"]));
}

#[test]
fn ls_files_output_becomes_tracked_set() {
    let out = b"src/a.rs\0src/b.rs\0\0src/a.rs\0".to_vec();
    assert_eq!(tracked_files_from_ls_files(&out, false), strings(&["src/a.rs", "src/b.rs"]));
    assert_eq!(
        tracked_files_from_ls_files(&b"A.rs\0a.RS\0b.rs".to_vec(), true),
        strings(&["a.rs", "b.rs"])
    );
    assert!(tracked_files_from_ls_files(&vec![], false).is_empty());
}

#[test]
fn status_output_becomes_changed_paths() {
    let out = b"1 .M N... 100644 100644 100644 abc def src/lib.rs\0? new dir\\x.txt\0u UU N... 1 2 3 4 a b c conflict.rs\x002 R. N... 100644 100644 100644 abc def R100 renamed.rs\0orig.rs\0! ignored\0".to_vec();
    assert_eq!(
        status_changed_files(&out),
        strings(&["src/lib.rs", "new dir/x.txt", "conflict.rs", "renamed.rs", "orig.rs"])
    );
    let parts = strings(&["2 R. N... 1 2 3 a b R100 only.rs"]);
    assert_eq!(parse_status_paths(&parts), strings(&["only.rs"]));
    assert_eq!(fields_tail_of("a b c d", 2), "c d");
    assert_eq!(fields_tail_of("a b", 5), "b");
}

#[test]
fn git_failure_messages_decode_error_output() {
    assert_eq!(git_failure_message("status", &b"fatal: \xff".to_vec()), "git status failed: fatal: \u{FFFD}");
}

// --- text, paths and counts ---

#[test]
fn text_helpers() {
    assert!(has_prefix("h_abc", "h_"));
    assert!(!has_prefix("h", "h_"));
    assert_eq!(head_before_double_colon("s_1::t_2::x"), "s_1");
    assert_eq!(head_before_double_colon("plain"), "plain");
    assert_eq!(normalize_to_posix("a\\b\\c"), "a/b/c");
    assert!(str_contains("already installed", "already"));
    assert!(!str_contains("ready", "already"));
    assert_eq!(join_strings(&strings(&["a", "b", "c"]), "; "), "a; b; c");
    assert_eq!(join_strings(&vec![], "; "), "");
}

#[test]
fn path_order_puts_separators_first() {
    assert!(path_lt("a/b", "a-b"));
    assert!(path_lt("a", "a/b"));
    assert!(!path_lt("b", "a"));
    assert_eq!(
        sort_paths(strings(&["b", "a-c", "a/c", "a"])),
        strings(&["a", "a/c", "a-c", "b"])
    );
}

#[test]
fn tool_counts_accumulate() {
    let mut c = ToolModelCounts::new();
    assert!(c.is_empty());
    c.add("x".to_string(), 2);
    c.add("y".to_string(), 3);
    c.add("x".to_string(), 4);
    assert_eq!(c.get(&"x".to_string()), Some(&6));
    assert_eq!(c.get(&"z".to_string()), None);
    assert_eq!(c.to_vec().len(), 2);
}

#[test]
fn string_map_replaces_values() {
    let mut m: StringMap<u32> = StringMap::new();
    m.insert("a".to_string(), 1);
    m.insert("b".to_string(), 2);
    m.insert("a".to_string(), 3);
    assert_eq!(m.len(), 2);
    assert_eq!(m.get(&"a".to_string()), Some(&3));
    assert_eq!(m.into_pairs(), vec![("a".to_string(), 3), ("b".to_string(), 2)]);
}

// --- install hooks bookkeeping ---

#[test]
fn install_results_and_metrics_messages() {
    assert_eq!(InstallStatus::AlreadyInstalled.as_str(), "already_installed");
    assert_eq!(InstallStatus::NotFound.as_str(), "not_found");
    let r = InstallResult::installed().with_warning("w1".to_string()).with_warning("w2".to_string());
    assert_eq!(r.message_for_metrics(), Some("w1; w2".to_string()));
    assert_eq!(InstallResult::failed("boom".to_string()).message_for_metrics(), Some("boom".to_string()));
    assert_eq!(InstallResult::not_found().message_for_metrics(), None);
    assert_eq!(InstallResult::already_installed().status, InstallStatus::AlreadyInstalled);
    let mut statuses = StringMap::new();
    statuses.insert("cursor".to_string(), InstallStatus::Installed);
    statuses.insert("vscode".to_string(), InstallStatus::Failed);
    assert_eq!(
        to_hashmap(&statuses),
        vec![
            ("cursor".to_string(), "installed".to_string()),
            ("vscode".to_string(), "failed".to_string())
        ]
    );
}

#[test]
fn extras_are_displayed_by_outcome() {
    assert_eq!(extra_display(true, false, "x"), ExtraDisplay::Success);
    assert_eq!(extra_display(true, true, "x"), ExtraDisplay::Pending);
    assert_eq!(extra_display(false, false, "already set"), ExtraDisplay::Success);
    assert_eq!(extra_display(false, false, "Unable to find"), ExtraDisplay::Pending);
    assert_eq!(extra_display(false, false, "nothing"), ExtraDisplay::Hidden);
    assert_eq!(uninstall_extra_display(true, ""), ExtraDisplay::Hidden);
    assert_eq!(uninstall_extra_display(true, "removed"), ExtraDisplay::Success);
    assert_eq!(uninstall_extra_display(false, "left"), ExtraDisplay::Pending);
}

#[test]
fn install_run_records_agents_and_clients() {
    let mut run = InstallRun::new(false);
    assert_eq!(run.closing_notice(false), ClosingNotice::NothingFound);
    run.record_agent(
        "code-agent".to_string(),
        AgentInstallOutcome::Checked {
            hooks: HooksOutcome::Updated,
            extras: Ok(vec![ExtraResult { changed: false, message: "Unable to update".to_string() }]),
        },
    );
    run.record_client("fork".to_string(), ClientInstallOutcome::NotInstalled);
    assert_eq!(run.statuses.get(&"code-agent".to_string()), Some(&InstallStatus::Installed));
    assert_eq!(run.statuses.get(&"fork".to_string()), Some(&InstallStatus::NotFound));
    assert_eq!(run.detailed_results.len(), 2);
    assert_eq!(run.detailed_results[0].1.warnings, strings(&["Unable to update"]));
    assert_eq!(run.closing_notice(true), ClosingNotice::DryRunPending);
    assert_eq!(run.closing_notice(false), ClosingNotice::Quiet);
}

#[test]
fn uninstall_run_starts_from_skills() {
    let run = UninstallRun::new(Some(true));
    assert_eq!(run.statuses.get(&"skills".to_string()), Some(&InstallStatus::Installed));
    assert!(run.has_changes);
    let run = UninstallRun::new(None);
    assert_eq!(run.statuses.len(), 0);
}

#[test]
fn install_flags_are_read_anywhere() {
    assert_eq!(parse_install_flags(&strings(&[])), (false, false));
    assert_eq!(parse_install_flags(&strings(&["x", "--dry-run=true"])), (true, false));
    assert_eq!(parse_install_flags(&strings(&["-v", "--dry-run"])), (true, true));
    assert_eq!(parse_install_flags(&strings(&["--dry-run=false", "--verbose"])), (false, true));
}

#[test]
fn amp_gets_a_plugins_note() {
    assert_eq!(
        amp_plugins_note("amp"),
        Some("  Note: Amp plugins are experimental. Run amp with `PLUGINS=all amp`.".to_string())
    );
    assert_eq!(amp_plugins_note("cursor"), None);
}

#[test]
fn metrics_values_follow_the_results() {
    let results = vec![
        ("a".to_string(), InstallResult::failed("bad".to_string())),
        ("b".to_string(), InstallResult::installed().with_warning("Unable x".to_string())),
        ("c".to_string(), InstallResult::not_found()),
    ];
    assert_eq!(
        install_metrics_values(&results),
        vec![
            ("a".to_string(), "failed".to_string(), Some("bad".to_string())),
            ("b".to_string(), "installed".to_string(), Some("Unable x".to_string())),
            ("c".to_string(), "not_found".to_string(), None),
        ]
    );
}

#[test]
fn mapping_reports_walk_errors() {
    let i = mapping_inputs(None);
    let (state, _) = build_rebase_commit_mappings(&i);
    let (state, _) = rebase_mapping_step(&i, state, RebaseMappingEvent::MergeBase(Ok("mb".to_string())));
    let (state, request) =
        rebase_mapping_step(&i, state, RebaseMappingEvent::Walked(Err("bad walk".to_string())));
    assert!(matches!(state, RebaseMappingState::Finished));
    assert!(matches!(request, RebaseMappingRequest::Done(Err(e)) if e == "bad walk"));

    let (state, _) = build_rebase_commit_mappings(&i);
    let (state, _) = rebase_mapping_step(&i, state, RebaseMappingEvent::MergeBase(Ok("mb".to_string())));
    let (state, _) = rebase_mapping_step(&i, state, RebaseMappingEvent::Walked(Ok(strings(&["o1"]))));
    let (_, request) =
        rebase_mapping_step(&i, state, RebaseMappingEvent::Walked(Err("rev-list failed".to_string())));
    assert!(matches!(request, RebaseMappingRequest::Done(Err(e)) if e == "rev-list failed"));
}

#[test]
fn to_hashmap_gives_each_tool_its_status_name() {
    let mut statuses: StringMap<InstallStatus> = StringMap::new();
    statuses.insert("zed".to_string(), InstallStatus::Failed);
    statuses.insert("amp".to_string(), InstallStatus::Installed);
    statuses.insert("zed".to_string(), InstallStatus::Installed);
    let pairs = to_hashmap(&statuses);
    assert_eq!(pairs.len(), 2);
    let find = |k: &str| pairs.iter().find(|(key, _)| key == k).map(|(_, v)| v.clone());
    assert_eq!(find("zed"), Some("installed".to_string()));
    assert_eq!(find("amp"), Some("installed".to_string()));
    assert_eq!(find("cursor"), None);
}

#[test]
fn paths_compare_by_components() {
    assert!(paths_equal("a//b", "a/b"));
    assert!(paths_equal("a/./b", "a/b"));
    assert!(paths_equal("a/b/", "a/b"));
    assert!(paths_equal("./a", "./a"));
    assert!(!paths_equal("./a", "a"));
    assert!(!paths_equal("/a", "a"));
    assert!(!paths_equal("a/../b", "b"));
    assert!(!path_lt("a//b", "a/b"));
    assert!(!path_lt("a/b", "a//b"));
    // the root, then `.`, then `..`, then named components
    assert!(path_lt("/z", "a"));
    assert!(path_lt("./z", "-"));
    assert!(path_lt("./z", "../a"));
    assert!(path_lt("../z", "-"));
    assert!(path_lt("../z", ".a"));
    assert!(!path_lt("-", "../z"));
    assert!(path_lt("a/b", "a/b/c"));
    assert!(path_lt("a/b.rs", "a/bc"));
    assert_eq!(
        sort_paths(strings(&["-", "../x", "./y", "/r", "a/./b", "a"])),
        strings(&["/r", "./y", "../x", "-", "a", "a/./b"])
    );
}

#[test]
fn walk_skips_git_directories() {
    assert!(within_git_dir("/repo/.git"));
    assert!(within_git_dir("/repo/.git/objects/ab"));
    assert!(within_git_dir("sub/.git/"));
    assert!(!within_git_dir("/repo/.github/workflows/ci.yml"));
    assert!(!within_git_dir("/repo/src/.gitignore"));
    assert!(!within_git_dir("/repo/a.git/b"));
}

#[test]
fn commit_list_trims_unicode_whitespace() {
    let text = "\u{3000}abc\u{a0}\n\u{2028}\u{85}\n x y \n\u{200b}z";
    assert_eq!(
        parse_commit_list(&text.as_bytes().to_vec()),
        Some(vec!["abc".to_string(), "x y".to_string(), "\u{200b}z".to_string()])
    );
}

#[test]
fn maps_keep_their_keys_in_order() {
    let mut m: StringMap<u32> = StringMap::new();
    for (k, v) in [("zed", 1), ("amp", 2), ("cursor", 3), ("amp", 4)] {
        m.insert(k.to_string(), v);
    }
    assert_eq!(
        m.into_pairs(),
        vec![("amp".to_string(), 4), ("cursor".to_string(), 3), ("zed".to_string(), 1)]
    );
    let mut c = ToolModelCounts::new();
    c.add("z::m".to_string(), 1);
    c.add("a::m".to_string(), 2);
    c.add("m::m".to_string(), 3);
    c.add("a::m".to_string(), 1);
    assert_eq!(
        c.to_vec(),
        vec![("a::m".to_string(), 3), ("m::m".to_string(), 3), ("z::m".to_string(), 1)]
    );
}
