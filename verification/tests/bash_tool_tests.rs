use git_ai::bash_tool::{
    bash_tool_step, classify_tool, diff, diff_action, handle_bash_tool, invocation_key,
    normalize_path, sanitize_key, should_include_new_file, status_action, Agent,
    BashCheckpointAction, BashToolEvent, BashToolRequest, BashToolState, FileTime, HookEvent,
    StatDiffResult, StatEntry, StatFileType, StatSnapshot, ToolClass,
};
use git_ai::snapshot::{
    check_tracked_count, is_stale_snapshot, snapshot_file_name, SnapshotBuilder,
};
use ignore::gitignore::{Gitignore, GitignoreBuilder};

fn entry(size: u64, secs: u64) -> StatEntry {
    StatEntry {
        exists: true,
        mtime: Some(FileTime { before_epoch: false, secs, nanos: 0 }),
        ctime: Some(FileTime { before_epoch: false, secs, nanos: 0 }),
        size,
        mode: 0o644,
        file_type: StatFileType::Regular,
    }
}

fn snapshot_of(entries: Vec<(String, StatEntry)>, listed: Vec<String>, key: &str) -> StatSnapshot {
    StatSnapshot {
        entries,
        tracked_files: listed,
        gitignore: None,
        invocation_key: key.to_string(),
        repo_root: "/tmp".to_string(),
    }
}

fn ignoring(patterns: &[&str]) -> Gitignore {
    let mut builder = GitignoreBuilder::new("/tmp/repo");
    for p in patterns {
        builder.add_line(None, p).unwrap();
    }
    builder.build().unwrap()
}

#[test]
fn test_normalize_path_consistency() {
    let path = "src/main.rs";
    let normalized = normalize_path(path, false);
    let normalized2 = normalize_path(path, false);
    assert_eq!(normalized, normalized2);
}

#[test]
fn test_diff_empty_snapshots() {
    let pre = snapshot_of(vec![], vec![], "test:1");
    let post = snapshot_of(vec![], vec![], "test:2");
    let result = diff(&pre, &post);
    assert!(result.is_empty());
}

#[test]
fn test_diff_detects_creation() {
    let pre = snapshot_of(vec![], vec![], "test:1");
    let post = snapshot_of(vec![(normalize_path("new_file.txt", false), entry(100, 5))], vec![], "test:2");
    let result = diff(&pre, &post);
    assert_eq!(result.created.len(), 1);
    assert!(result.modified.is_empty());
    assert!(result.deleted.is_empty());
}

#[test]
fn test_diff_detects_deletion() {
    let path = normalize_path("deleted.txt", false);
    let pre = snapshot_of(vec![(path.clone(), entry(50, 5))], vec![path], "test:1");
    let post = snapshot_of(vec![], vec![], "test:2");
    let result = diff(&pre, &post);
    assert!(result.created.is_empty());
    assert!(result.modified.is_empty());
    assert_eq!(result.deleted.len(), 1);
}

#[test]
fn test_diff_detects_modification() {
    let path = normalize_path("modified.txt", false);
    let pre = snapshot_of(vec![(path.clone(), entry(50, 5))], vec![path.clone()], "test:1");
    let post = snapshot_of(vec![(path, entry(75, 6))], vec![], "test:2");
    let result = diff(&pre, &post);
    assert!(result.created.is_empty());
    assert_eq!(result.modified.len(), 1);
    assert!(result.deleted.is_empty());
}

#[test]
fn test_tool_classification_claude() {
    assert_eq!(classify_tool(Agent::Claude, "Write"), ToolClass::FileEdit);
    assert_eq!(classify_tool(Agent::Claude, "Edit"), ToolClass::FileEdit);
    assert_eq!(classify_tool(Agent::Claude, "MultiEdit"), ToolClass::FileEdit);
    assert_eq!(classify_tool(Agent::Claude, "Bash"), ToolClass::Bash);
    assert_eq!(classify_tool(Agent::Claude, "Read"), ToolClass::Skip);
    assert_eq!(classify_tool(Agent::Claude, "unknown"), ToolClass::Skip);
}

#[test]
fn test_tool_classification_all_agents() {
    // Gemini
    assert_eq!(classify_tool(Agent::Gemini, "write_file"), ToolClass::FileEdit);
    assert_eq!(classify_tool(Agent::Gemini, "shell"), ToolClass::Bash);

    // Continue CLI
    assert_eq!(classify_tool(Agent::ContinueCli, "edit"), ToolClass::FileEdit);
    assert_eq!(classify_tool(Agent::ContinueCli, "terminal"), ToolClass::Bash);
    assert_eq!(classify_tool(Agent::ContinueCli, "local_shell_call"), ToolClass::Bash);

    // Droid
    assert_eq!(classify_tool(Agent::Droid, "ApplyPatch"), ToolClass::FileEdit);
    assert_eq!(classify_tool(Agent::Droid, "Bash"), ToolClass::Bash);

    // Amp
    assert_eq!(classify_tool(Agent::Amp, "Write"), ToolClass::FileEdit);
    assert_eq!(classify_tool(Agent::Amp, "Bash"), ToolClass::Bash);

    // OpenCode
    assert_eq!(classify_tool(Agent::OpenCode, "edit"), ToolClass::FileEdit);
    assert_eq!(classify_tool(Agent::OpenCode, "bash"), ToolClass::Bash);
    assert_eq!(classify_tool(Agent::OpenCode, "shell"), ToolClass::Bash);
}

#[test]
fn test_sanitize_key() {
    assert_eq!(sanitize_key("session:tool"), "session_tool");
    assert_eq!(sanitize_key("a/b\\c"), "a_b_c");
    assert_eq!(sanitize_key("normal_key"), "normal_key");
}

#[test]
fn test_stat_diff_result_all_changed_paths() {
    let result = StatDiffResult {
        created: vec!["new.txt".to_string()],
        modified: vec!["changed.txt".to_string()],
        deleted: vec!["removed.txt".to_string()],
    };
    let paths = result.all_changed_paths();
    assert_eq!(paths.len(), 3);
    assert!(paths.contains(&"new.txt".to_string()));
    assert!(paths.contains(&"changed.txt".to_string()));
    assert!(paths.contains(&"removed.txt".to_string()));
}

#[test]
fn changed_paths_come_in_posix_form_and_order() {
    let result = StatDiffResult {
        created: vec!["dir\\new.txt".to_string()],
        modified: vec![],
        deleted: vec!["old.txt".to_string()],
    };
    assert_eq!(result.all_changed_paths(), vec!["dir/new.txt".to_string(), "old.txt".to_string()]);
}

#[test]
fn diff_lists_are_sorted_by_path() {
    let pre = snapshot_of(vec![], vec![], "k");
    let post = snapshot_of(
        vec![
            ("src/z.rs".to_string(), entry(1, 1)),
            ("src/a.rs".to_string(), entry(1, 1)),
            ("src-b.rs".to_string(), entry(1, 1)),
        ],
        vec![],
        "k",
    );
    let result = diff(&pre, &post);
    // '/' orders before every other character
    assert_eq!(
        result.created,
        vec!["src/a.rs".to_string(), "src/z.rs".to_string(), "src-b.rs".to_string()]
    );
}

#[test]
fn diff_of_a_snapshot_with_itself_is_empty() {
    let s = snapshot_of(vec![("a".to_string(), entry(3, 3))], vec!["a".to_string()], "k");
    assert!(diff(&s, &s).is_empty());
}

#[test]
fn frozen_gitignore_filters_new_untracked_files() {
    let mut pre = snapshot_of(vec![], vec!["build.log".to_string()], "k");
    pre.gitignore = Some(ignoring(&["*.log"]));
    let post = snapshot_of(
        vec![
            ("debug.log".to_string(), entry(1, 1)),
            ("build.log".to_string(), entry(1, 1)),
            ("main.rs".to_string(), entry(1, 1)),
        ],
        vec![],
        "k",
    );
    let result = diff(&pre, &post);
    // ignored and untracked: left out; tracked or not ignored: created
    assert_eq!(result.created, vec!["build.log".to_string(), "main.rs".to_string()]);
}

#[test]
fn should_include_new_file_follows_the_rules() {
    let g = ignoring(&["target/", "*.tmp"]);
    assert!(!should_include_new_file(&g, "x.tmp", false));
    assert!(should_include_new_file(&g, "x.rs", false));
    assert!(!should_include_new_file(&g, "target", true));
}

#[test]
fn invocation_keys_join_with_a_colon() {
    assert_eq!(invocation_key("sess", "tool-1"), "sess:tool-1");
    assert_eq!(snapshot_file_name(&invocation_key("sess", "a/b")), "sess_a_b.json");
}

#[test]
fn stat_types_and_times() {
    assert_eq!(StatFileType::from_flags(true, true, true), StatFileType::Symlink);
    assert_eq!(StatFileType::from_flags(false, true, true), StatFileType::Directory);
    assert_eq!(StatFileType::from_flags(false, false, true), StatFileType::Regular);
    assert_eq!(StatFileType::from_flags(false, false, false), StatFileType::Other);
    assert_eq!(
        StatEntry::ctime_from_parts(12, 7),
        Some(FileTime { before_epoch: false, secs: 12, nanos: 7 })
    );
    assert_eq!(StatEntry::ctime_from_parts(-1, 0), None);
    assert_eq!(entry(5, 1), entry(5, 1));
    assert_ne!(entry(5, 1), entry(6, 1));
}

#[test]
fn snapshot_size_and_staleness_limits() {
    assert!(check_tracked_count(500_000).is_ok());
    assert_eq!(
        check_tracked_count(500_001),
        Err("Repo exceeds 500000 tracked files; use git status fallback".to_string())
    );
    assert!(!is_stale_snapshot(300));
    assert!(is_stale_snapshot(301));
}

#[test]
fn snapshot_builder_admits_tracked_and_unignored_files() {
    let mut b = SnapshotBuilder::new(
        "/tmp/repo".to_string(),
        "s",
        "t",
        vec!["keep.log".to_string(), "gone.rs".to_string()],
        ignoring(&["*.log"]),
        false,
    );
    assert!(b.admits("keep.log"));
    assert!(!b.admits("other.log"));
    assert!(b.admits("main.rs"));
    b.record("keep.log", entry(1, 1));
    b.record("main.rs", entry(2, 2));
    b.record("main.rs", entry(3, 3));
    assert_eq!(b.missing_tracked(), vec!["gone.rs".to_string()]);
    let snap = b.finish();
    assert_eq!(snap.entries.len(), 2);
    assert_eq!(snap.invocation_key, "s:t");
    assert_eq!(snap.repo_root, "/tmp/repo");
    assert!(snap.gitignore.is_some());
    let main = snap.entries.iter().find(|(p, _)| p == "main.rs").unwrap();
    assert_eq!(main.1, entry(3, 3));
}

#[test]
fn pre_tool_hook_stores_a_snapshot() {
    let (state, request) = handle_bash_tool(HookEvent::PreToolUse);
    assert!(matches!(state, BashToolState::PreSnapshotting));
    assert!(matches!(request, BashToolRequest::CleanupAndSnapshot));
    let snap = snapshot_of(vec![], vec![], "s:t");
    let (state, request) = bash_tool_step(state, BashToolEvent::SnapshotTaken(Some(snap)));
    assert!(matches!(state, BashToolState::Saving));
    assert!(matches!(request, BashToolRequest::Save(_)));
    let (state, request) = bash_tool_step(state, BashToolEvent::Saved(Ok(())));
    assert!(matches!(state, BashToolState::Finished));
    assert!(matches!(request, BashToolRequest::Done(Ok(BashCheckpointAction::TakePreSnapshot))));
}

#[test]
fn pre_tool_hook_survives_a_failed_snapshot() {
    let (state, _) = handle_bash_tool(HookEvent::PreToolUse);
    let (_, request) = bash_tool_step(state, BashToolEvent::SnapshotTaken(None));
    assert!(matches!(request, BashToolRequest::Done(Ok(BashCheckpointAction::TakePreSnapshot))));
}

#[test]
fn post_tool_hook_diffs_against_the_stored_snapshot() {
    let (state, request) = handle_bash_tool(HookEvent::PostToolUse);
    assert!(matches!(request, BashToolRequest::Load));
    let mut pre = snapshot_of(vec![("a.rs".to_string(), entry(1, 1))], vec!["a.rs".to_string()], "k");
    pre.gitignore = Some(ignoring(&[]));
    let (state, request) = bash_tool_step(state, BashToolEvent::Loaded(Ok(Some(pre))));
    assert!(matches!(request, BashToolRequest::PostSnapshot));
    let post = snapshot_of(vec![("a.rs".to_string(), entry(2, 2))], vec![], "k");
    let (_, request) = bash_tool_step(state, BashToolEvent::SnapshotTaken(Some(post)));
    match request {
        BashToolRequest::Done(Ok(BashCheckpointAction::Checkpoint(paths))) => {
            assert_eq!(paths, vec!["a.rs".to_string()])
        }
        other => panic!("unexpected {:?}", other),
    }
}

#[test]
fn post_tool_hook_rebuilds_missing_rules() {
    let (state, _) = handle_bash_tool(HookEvent::PostToolUse);
    let pre = snapshot_of(vec![], vec![], "k");
    let (state, _) = bash_tool_step(state, BashToolEvent::Loaded(Ok(Some(pre))));
    let post = snapshot_of(vec![("x.log".to_string(), entry(1, 1))], vec![], "k");
    let (state, request) = bash_tool_step(state, BashToolEvent::SnapshotTaken(Some(post)));
    match &request {
        BashToolRequest::RebuildGitignore(root) => assert_eq!(root, "/tmp"),
        other => panic!("unexpected {:?}", other),
    }
    let (_, request) =
        bash_tool_step(state, BashToolEvent::GitignoreRebuilt(Some(ignoring(&["*.log"]))));
    assert!(matches!(request, BashToolRequest::Done(Ok(BashCheckpointAction::NoChanges))));
}

#[test]
fn post_tool_hook_falls_back_to_git_status() {
    let (state, _) = handle_bash_tool(HookEvent::PostToolUse);
    let (state, request) = bash_tool_step(state, BashToolEvent::Loaded(Ok(None)));
    assert!(matches!(request, BashToolRequest::GitStatus));
    let (_, request) =
        bash_tool_step(state, BashToolEvent::GitStatusDone(Some(vec!["f.txt".to_string()])));
    match request {
        BashToolRequest::Done(Ok(BashCheckpointAction::Checkpoint(paths))) => {
            assert_eq!(paths, vec!["f.txt".to_string()])
        }
        other => panic!("unexpected {:?}", other),
    }
    assert!(matches!(status_action(None), BashCheckpointAction::Fallback));
    assert!(matches!(status_action(Some(vec![])), BashCheckpointAction::NoChanges));
}

#[test]
fn post_tool_hook_reports_load_errors() {
    let (state, _) = handle_bash_tool(HookEvent::PostToolUse);
    let (state, request) = bash_tool_step(state, BashToolEvent::Loaded(Err("bad json".to_string())));
    assert!(matches!(state, BashToolState::Finished));
    match request {
        BashToolRequest::Done(Err(e)) => assert_eq!(e, "bad json"),
        other => panic!("unexpected {:?}", other),
    }
}

#[test]
fn diff_action_without_changes() {
    let s = snapshot_of(vec![("a".to_string(), entry(1, 1))], vec![], "k");
    assert!(matches!(diff_action(&s, &s), BashCheckpointAction::NoChanges));
}

#[test]
fn a_path_is_in_one_change_list_only() {
    let pre = snapshot_of(
        vec![("a".to_string(), entry(1, 1)), ("b".to_string(), entry(1, 1))],
        vec![],
        "k",
    );
    let post = snapshot_of(
        vec![("b".to_string(), entry(2, 2)), ("c".to_string(), entry(1, 1))],
        vec![],
        "k",
    );
    let d = diff(&pre, &post);
    assert_eq!(d.created, vec!["c".to_string()]);
    assert_eq!(d.modified, vec!["b".to_string()]);
    assert_eq!(d.deleted, vec!["a".to_string()]);
}

#[test]
fn recording_the_missing_files_leaves_none_missing() {
    let mut b = SnapshotBuilder::new(
        "/r".to_string(),
        "s",
        "t",
        vec!["x.rs".to_string(), "y.rs".to_string()],
        ignoring(&[]),
        false,
    );
    b.record("x.rs", entry(1, 1));
    for p in b.missing_tracked() {
        b.record(&p, entry(2, 2));
    }
    assert!(b.missing_tracked().is_empty());
}

#[test]
fn pre_tool_hook_reports_save_errors() {
    let (state, _) = handle_bash_tool(HookEvent::PreToolUse);
    let (state, _) = bash_tool_step(state, BashToolEvent::SnapshotTaken(Some(snapshot_of(vec![], vec![], "k"))));
    let (_, request) = bash_tool_step(state, BashToolEvent::Saved(Err("disk full".to_string())));
    assert!(matches!(request, BashToolRequest::Done(Err(e)) if e == "disk full"));
}

#[test]
fn case_folding_keys_paths_in_lowercase() {
    assert_eq!(normalize_path("Src/Main.RS", true), "src/main.rs");
    assert_eq!(normalize_path("Src/Main.RS", false), "Src/Main.RS");
    let mut b = SnapshotBuilder::new(
        "/r".to_string(),
        "s",
        "t",
        vec!["readme.md".to_string()],
        ignoring(&["*.md"]),
        true,
    );
    assert!(b.admits("README.md"));
    assert!(!b.admits("NOTES.md"));
    b.record("README.md", entry(1, 1));
    assert!(b.missing_tracked().is_empty());
    let snap = b.finish();
    assert_eq!(snap.entries[0].0, "readme.md");
}

#[test]
fn normalizing_a_normalized_path_changes_nothing() {
    for p in ["src/main.rs", "Docs/READ ME.md", "a/b/c"] {
        let once = normalize_path(p, false);
        assert_eq!(normalize_path(&once, false), once);
    }
    let folded = normalize_path("Src/Main.RS", true);
    assert_eq!(normalize_path(&folded, true), folded);
}

#[test]
fn pre_then_post_hook_reports_exactly_the_diff() {
    let stored = snapshot_of(
        vec![("a.rs".to_string(), entry(1, 1)), ("b.rs".to_string(), entry(1, 1))],
        vec!["a.rs".to_string(), "b.rs".to_string()],
        "s:t",
    );
    let (state, _) = handle_bash_tool(HookEvent::PreToolUse);
    let (state, request) = bash_tool_step(state, BashToolEvent::SnapshotTaken(Some(stored)));
    let saved = match request {
        BashToolRequest::Save(s) => s,
        other => panic!("unexpected {:?}", other),
    };
    let (_, request) = bash_tool_step(state, BashToolEvent::Saved(Ok(())));
    assert!(matches!(request, BashToolRequest::Done(Ok(BashCheckpointAction::TakePreSnapshot))));

    let unchanged_post = snapshot_of(
        vec![("a.rs".to_string(), entry(1, 1)), ("b.rs".to_string(), entry(1, 1))],
        vec![],
        "s:t",
    );
    let (state, _) = handle_bash_tool(HookEvent::PostToolUse);
    let (state, _) = bash_tool_step(state, BashToolEvent::Loaded(Ok(Some(saved))));
    let (state, request) = bash_tool_step(state, BashToolEvent::SnapshotTaken(Some(unchanged_post)));
    assert!(matches!(request, BashToolRequest::RebuildGitignore(_)));
    let (_, request) = bash_tool_step(state, BashToolEvent::GitignoreRebuilt(None));
    assert!(matches!(request, BashToolRequest::Done(Ok(BashCheckpointAction::NoChanges))));

    let pre = snapshot_of(
        vec![("a.rs".to_string(), entry(1, 1)), ("b.rs".to_string(), entry(1, 1))],
        vec!["a.rs".to_string(), "b.rs".to_string()],
        "s:t",
    );
    let post = snapshot_of(
        vec![("b.rs".to_string(), entry(2, 2)), ("c.rs".to_string(), entry(1, 1))],
        vec![],
        "s:t",
    );
    let expected = diff(&pre, &post).all_changed_paths();
    let (state, _) = handle_bash_tool(HookEvent::PostToolUse);
    let (state, _) = bash_tool_step(state, BashToolEvent::Loaded(Ok(Some(pre))));
    let (state, _) = bash_tool_step(state, BashToolEvent::SnapshotTaken(Some(post)));
    let (_, request) = bash_tool_step(state, BashToolEvent::GitignoreRebuilt(None));
    match request {
        BashToolRequest::Done(Ok(BashCheckpointAction::Checkpoint(paths))) => {
            assert_eq!(paths, expected);
            assert_eq!(
                paths,
                vec!["c.rs".to_string(), "b.rs".to_string(), "a.rs".to_string()]
            );
        }
        other => panic!("unexpected {:?}", other),
    }
}

#[test]
fn diff_matches_paths_by_components() {
    let pre = snapshot_of(
        vec![("a//b.rs".to_string(), entry(1, 1)), ("c.rs".to_string(), entry(1, 1))],
        vec![],
        "k",
    );
    let post = snapshot_of(
        vec![
            ("a/b.rs".to_string(), entry(2, 2)),
            ("./c.rs".to_string(), entry(1, 1)),
            ("d/./e.rs".to_string(), entry(1, 1)),
        ],
        vec![],
        "k",
    );
    let result = diff(&pre, &post);
    // `./c.rs` begins with a `.` component, so it is not `c.rs`
    assert_eq!(result.created, vec!["./c.rs".to_string(), "d/./e.rs".to_string()]);
    assert_eq!(result.deleted, vec!["c.rs".to_string()]);
    // pre has fewer entries, so the modified path is named as pre names it
    assert_eq!(result.modified, vec!["a//b.rs".to_string()]);

    let bigger_pre = snapshot_of(
        vec![
            ("a//b.rs".to_string(), entry(1, 1)),
            ("x.rs".to_string(), entry(1, 1)),
            ("y.rs".to_string(), entry(1, 1)),
        ],
        vec![],
        "k",
    );
    let smaller_post = snapshot_of(vec![("a/b.rs/".to_string(), entry(3, 3))], vec![], "k");
    let result = diff(&bigger_pre, &smaller_post);
    assert_eq!(result.modified, vec!["a/b.rs/".to_string()]);
    assert_eq!(result.deleted, vec!["x.rs".to_string(), "y.rs".to_string()]);
    assert!(result.created.is_empty());
}

#[test]
fn snapshot_builder_keeps_the_first_key_of_a_path() {
    let mut b = SnapshotBuilder::new(
        "/tmp/repo".to_string(),
        "s",
        "t",
        vec!["src/a.rs".to_string()],
        ignoring(&[]),
        false,
    );
    b.record("src//a.rs", entry(1, 1));
    b.record("src/a.rs", entry(2, 2));
    assert!(b.missing_tracked().is_empty());
    let snap = b.finish();
    assert_eq!(snap.entries, vec![("src//a.rs".to_string(), entry(2, 2))]);
}

#[test]
fn repeated_post_hook_after_consumption_falls_back() {
    let (state, _) = handle_bash_tool(HookEvent::PostToolUse);
    // the stored snapshot was consumed by the first post-tool hook
    let (state, request) = bash_tool_step(state, BashToolEvent::Loaded(Ok(None)));
    assert!(matches!(state, BashToolState::StatusFallback));
    assert!(matches!(request, BashToolRequest::GitStatus));
    let (_, request) = bash_tool_step(state, BashToolEvent::GitStatusDone(Some(vec![])));
    assert!(matches!(request, BashToolRequest::Done(Ok(BashCheckpointAction::NoChanges))));
}
