use git_ai::attestation::{AttestationEntry, AuthorshipLog, FileAttestation, SessionRecord};
use git_ai::authorship_log::{AgentId, PromptRecord};
use git_ai::commit_stats::{
    diff_from_ref, get_git_diff_stats, stats_from_authorship_log, top_model, DiffHunk,
    ToolModelHeadlineStats,
};
use git_ai::contributors::{ContributorStats, ToolModelContributorStats};
use git_ai::hunk_stats::{
    group_added_lines, insert_line, stats_for_commit_stats, stats_for_commit_stats_from_hunks,
};
use git_ai::line_range::LineRange;
use git_ai::stats::{accepted_lines_from_attestations, line_range_overlap_len};
use git_ai::string_map::StringMap;
use git_ai::tool_counts::ToolModelCounts;

fn prompt(tool: &str, id: &str, model: &str, additions: u32) -> PromptRecord {
    PromptRecord {
        agent_id: AgentId { tool: tool.to_string(), id: id.to_string(), model: model.to_string() },
        human_author: None,
        messages: vec![],
        total_additions: additions,
        total_deletions: 0,
        accepted_lines: additions,
        overriden_lines: 0,
        messages_url: None,
        custom_attributes: None,
    }
}

fn log_with_prompt(hash: &str, record: PromptRecord, file: &str, ranges: Vec<LineRange>) -> AuthorshipLog {
    let mut log = AuthorshipLog::new();
    log.metadata.prompts.push((hash.to_string(), record));
    let mut file_att = FileAttestation::new(file.to_string());
    file_att.add_entry(AttestationEntry::new(hash.to_string(), ranges));
    log.attestations.push(file_att);
    log
}

#[test]
fn test_accepted_lines_no_authorship_log() {
    let added_lines: Vec<(String, Vec<u32>)> = Vec::new();
    let (accepted, known_human, per_tool) = accepted_lines_from_attestations(None, &added_lines, false);
    assert_eq!(accepted, 0);
    assert_eq!(known_human, 0);
    assert!(per_tool.is_empty());
}

#[test]
fn test_accepted_lines_merge_commit() {
    // Even with a real authorship log, merge commits should short-circuit to (0, empty)
    let log = log_with_prompt(
        "a1b2c3d4",
        prompt("cursor", "session_1", "model-3", 5),
        "foo.rs",
        vec![LineRange::Range(1, 3)],
    );
    let added_lines = vec![("foo.rs".to_string(), vec![1, 2, 3])];
    let (accepted, known_human, per_tool) =
        accepted_lines_from_attestations(Some(&log), &added_lines, true);
    assert_eq!(accepted, 0);
    assert_eq!(known_human, 0);
    assert!(per_tool.is_empty());
}

#[test]
fn test_accepted_lines_no_matching_files() {
    let log = log_with_prompt(
        "e5f6a7b8",
        prompt("cursor", "session_2", "model-3", 3),
        "foo.rs",
        vec![LineRange::Range(1, 3)],
    );
    // added_lines has "bar.rs" but NOT "foo.rs"
    let added_lines = vec![("bar.rs".to_string(), vec![1, 2, 3])];
    let (accepted, known_human, per_tool) =
        accepted_lines_from_attestations(Some(&log), &added_lines, false);
    assert_eq!(accepted, 0);
    assert_eq!(known_human, 0);
    assert!(per_tool.is_empty());
}

#[test]
fn test_accepted_lines_basic_match() {
    let log = log_with_prompt(
        "c9d0e1f2",
        prompt("cursor", "session_3", "model-3", 3),
        "foo.rs",
        vec![LineRange::Range(1, 3)],
    );
    let added_lines = vec![("foo.rs".to_string(), vec![1, 2, 3])];
    let (accepted, known_human, per_tool) =
        accepted_lines_from_attestations(Some(&log), &added_lines, false);
    assert_eq!(accepted, 3);
    assert_eq!(known_human, 0);

    // Verify per-tool breakdown contains the right key
    let expected_key = "cursor::model-3".to_string();
    assert_eq!(per_tool.get(&expected_key), Some(&3));
}

#[test]
fn accepted_lines_counts_known_humans_and_sessions() {
    let mut log = AuthorshipLog::new();
    log.metadata.sessions.push((
        "s_abc".to_string(),
        SessionRecord {
            agent_id: AgentId {
                tool: "acme".to_string(),
                id: "x".to_string(),
                model: "large".to_string(),
            },
        },
    ));
    let mut file_att = FileAttestation::new("src/a.rs".to_string());
    file_att.add_entry(AttestationEntry::new("h_alice".to_string(), vec![LineRange::Range(1, 2)]));
    file_att.add_entry(AttestationEntry::new(
        "s_abc::t_1".to_string(),
        vec![LineRange::Single(4), LineRange::Range(6, 9)],
    ));
    file_att.add_entry(AttestationEntry::new("unknown".to_string(), vec![LineRange::Single(10)]));
    log.attestations.push(file_att);
    let added = vec![("src/a.rs".to_string(), vec![1, 2, 3, 4, 6, 8, 10])];
    let (ai, human, per_tool) = accepted_lines_from_attestations(Some(&log), &added, false);
    assert_eq!(human, 2);
    // session entry: line 4 plus 6 and 8; the unknown entry: line 10
    assert_eq!(ai, 4);
    assert_eq!(per_tool.get(&"acme::large".to_string()), Some(&3));
    assert_eq!(per_tool.to_vec().len(), 1);
}

#[test]
fn test_overlap_single_hit() {
    let count = line_range_overlap_len(&LineRange::Single(5), &[3, 5, 7]);
    assert_eq!(count, 1);
}

#[test]
fn test_overlap_single_miss() {
    let count = line_range_overlap_len(&LineRange::Single(4), &[3, 5, 7]);
    assert_eq!(count, 0);
}

#[test]
fn test_overlap_range_full() {
    let count = line_range_overlap_len(&LineRange::Range(3, 7), &[3, 4, 5, 6, 7]);
    assert_eq!(count, 5);
}

#[test]
fn test_overlap_range_partial() {
    // Range [4, 8] intersected with [3, 5, 7, 9]: only 5 and 7 are in range
    let count = line_range_overlap_len(&LineRange::Range(4, 8), &[3, 5, 7, 9]);
    assert_eq!(count, 2);
}

#[test]
fn test_overlap_range_miss() {
    let count = line_range_overlap_len(&LineRange::Range(10, 20), &[1, 2, 3]);
    assert_eq!(count, 0);
}

#[test]
fn test_overlap_range_empty_added() {
    let count = line_range_overlap_len(&LineRange::Range(1, 10), &[]);
    assert_eq!(count, 0);
}

#[test]
fn test_line_range_overlap_edge_cases() {
    // Empty added_lines
    assert_eq!(line_range_overlap_len(&LineRange::Single(5), &[]), 0);
    assert_eq!(line_range_overlap_len(&LineRange::Range(1, 10), &[]), 0);

    // Range with start == end
    assert_eq!(line_range_overlap_len(&LineRange::Range(5, 5), &[5]), 1);
    assert_eq!(line_range_overlap_len(&LineRange::Range(5, 5), &[4, 6]), 0);

    // Range before all lines
    assert_eq!(line_range_overlap_len(&LineRange::Range(1, 2), &[10, 20, 30]), 0);

    // Range after all lines
    assert_eq!(line_range_overlap_len(&LineRange::Range(50, 60), &[10, 20, 30]), 0);

    // Range partially overlapping
    assert_eq!(line_range_overlap_len(&LineRange::Range(5, 15), &[1, 3, 10, 12, 20]), 2);
}

#[test]
fn test_stats_from_authorship_log_no_log() {
    let stats = stats_from_authorship_log(None, 10, 5, 3, 0, &ToolModelCounts::new());

    assert_eq!(stats.git_diff_added_lines, 10);
    assert_eq!(stats.git_diff_deleted_lines, 5);
    assert_eq!(stats.ai_accepted, 3);
    assert_eq!(stats.ai_additions, 3); // ai_accepted when no mixed
    assert_eq!(stats.human_additions, 0); // no known-human attestations passed
    assert_eq!(stats.unknown_additions, 7); // 10 - 3 (unattested lines)
}

#[test]
fn test_stats_surfaces_contributors_from_authorship_log() {
    let mut log = log_with_prompt(
        "0a1b2c3d",
        prompt("acme", "session_1", "large", 10),
        "x.rs",
        vec![],
    );
    let mut alice_tm = StringMap::new();
    alice_tm.insert(
        "acme::large".to_string(),
        ToolModelContributorStats { ai_additions: 10, ai_accepted: 7, mixed_additions: 3 },
    );
    let mut contributors = StringMap::new();
    contributors.insert(
        "alice@example.com".to_string(),
        ContributorStats {
            name: "Alice".to_string(),
            human_additions: 5,
            manual_additions: 2,
            ai_additions: 10,
            ai_accepted: 7,
            mixed_additions: 3,
            tool_model_breakdown: alice_tm,
        },
    );
    log.metadata.contributors = Some(contributors);

    let stats = stats_from_authorship_log(
        Some(&log),
        15, // git_diff_added_lines
        0,  // git_diff_deleted_lines
        7,  // ai_accepted
        5,  // known_human_accepted
        &ToolModelCounts::new(),
    );

    assert!(stats.contributors.is_some(), "contributors should be surfaced");
    let c = stats.contributors.unwrap();
    assert_eq!(c.len(), 1);
    let alice = c.get(&"alice@example.com".to_string()).expect("alice should be present");
    assert_eq!(alice.name, "Alice");
    assert_eq!(alice.ai_additions, 10);
    assert_eq!(alice.ai_accepted, 7);
    assert_eq!(alice.mixed_additions, 3);
    assert_eq!(alice.manual_additions, 2);
    assert!(alice.tool_model_breakdown.get(&"acme::large".to_string()).is_some());
}

#[test]
fn test_stats_no_contributors_when_absent() {
    let log = log_with_prompt("1a2b3c4d", prompt("cursor", "session_1", "gpt-4", 5), "x.rs", vec![]);
    // contributors is None (default)
    let stats = stats_from_authorship_log(Some(&log), 10, 0, 5, 3, &ToolModelCounts::new());
    assert!(stats.contributors.is_none(), "contributors should be None when not in log");
}

#[test]
fn test_stats_no_contributors_when_no_log() {
    let stats = stats_from_authorship_log(None, 10, 0, 5, 3, &ToolModelCounts::new());
    assert!(stats.contributors.is_none(), "contributors should be None when no authorship log");
}

#[test]
fn empty_contributors_map_is_not_surfaced() {
    let mut log = AuthorshipLog::new();
    log.metadata.contributors = Some(StringMap::new());
    let stats = stats_from_authorship_log(Some(&log), 1, 0, 0, 0, &ToolModelCounts::new());
    assert!(stats.contributors.is_none());
}

#[test]
fn unknown_additions_saturate_at_zero() {
    let stats = stats_from_authorship_log(None, 4, 0, 3, 5, &ToolModelCounts::new());
    assert_eq!(stats.unknown_additions, 0);
    // human + unknown + ai equals the added lines when the attested lines fit
    let stats = stats_from_authorship_log(None, 20, 0, 8, 5, &ToolModelCounts::new());
    assert_eq!(stats.human_additions + stats.unknown_additions + stats.ai_additions, 20);
}

#[test]
fn breakdown_credits_each_tool_model() {
    let mut by_tool = ToolModelCounts::new();
    by_tool.add("cursor::small".to_string(), 4);
    by_tool.add("acme::large".to_string(), 2);
    by_tool.add("cursor::small".to_string(), 1);
    let stats = stats_from_authorship_log(None, 10, 0, 7, 0, &by_tool);
    assert_eq!(stats.tool_model_breakdown.len(), 2);
    for (name, s) in &stats.tool_model_breakdown {
        let expected = if name == "cursor::small" { 5 } else { 2 };
        assert_eq!(s.ai_accepted, expected);
        assert_eq!(s.ai_additions, expected);
    }
}

fn hunk(path: &str, added: Vec<u32>, deleted: Vec<u32>) -> DiffHunk {
    DiffHunk { file_path: path.to_string(), added_lines: added, deleted_lines: deleted }
}

#[test]
fn diff_stats_leave_out_ignored_files_and_merges() {
    let hunks = vec![
        hunk("src/lib.rs", vec![1, 2, 3], vec![7]),
        hunk("Cargo.lock", vec![1, 2, 3, 4, 5, 6], vec![1, 2]),
        hunk("src/main.rs", vec![10], vec![]),
    ];
    let ignored = vec![false, true, false];
    assert_eq!(get_git_diff_stats(1, &hunks, &ignored), (4, 1));
    assert_eq!(get_git_diff_stats(0, &hunks, &vec![false, false, false]), (10, 3));
    assert_eq!(get_git_diff_stats(2, &hunks, &ignored), (0, 0));
}

#[test]
fn diff_base_follows_parent_count() {
    assert_eq!(diff_from_ref(2, "abc"), None);
    assert_eq!(
        diff_from_ref(0, "abc"),
        Some("4b825dc642cb6eb9a060e54bf8d69288fbee4904".to_string())
    );
    assert_eq!(diff_from_ref(1, "abc"), Some("abc".to_string()));
}

#[test]
fn added_lines_are_grouped_sorted_and_deduplicated() {
    let hunks = vec![
        hunk("b.rs", vec![9, 3], vec![]),
        hunk("a.rs", vec![5], vec![]),
        hunk("b.rs", vec![3, 1], vec![]),
        hunk("c.rs", vec![], vec![4]),
        hunk("d.rs", vec![2], vec![]),
    ];
    let groups = group_added_lines(&hunks, &vec![false, false, false, false, true], false);
    assert_eq!(
        groups,
        vec![("b.rs".to_string(), vec![1, 3, 9]), ("a.rs".to_string(), vec![5])]
    );
    assert!(group_added_lines(&hunks, &vec![false; 5], true).is_empty());
}

#[test]
fn insert_line_keeps_order_and_uniqueness() {
    let mut lines = vec![2, 5, 9];
    insert_line(&mut lines, 5);
    assert_eq!(lines, vec![2, 5, 9]);
    insert_line(&mut lines, 1);
    insert_line(&mut lines, 7);
    insert_line(&mut lines, 10);
    assert_eq!(lines, vec![1, 2, 5, 7, 9, 10]);
}

#[test]
fn stats_from_hunks_credit_attested_lines() {
    let log = log_with_prompt(
        "p1",
        prompt("cursor", "s", "model-4", 3),
        "src/lib.rs",
        vec![LineRange::Range(2, 4)],
    );
    let hunks = vec![
        hunk("src/lib.rs", vec![1, 2], vec![]),
        hunk("src/lib.rs", vec![3, 2, 8], vec![5]),
        hunk("Cargo.lock", vec![1, 2, 3], vec![]),
    ];
    let ignored = vec![false, false, true];
    let stats = stats_for_commit_stats_from_hunks(1, &hunks, &ignored, Some(&log));
    assert_eq!(stats.git_diff_added_lines, 5);
    assert_eq!(stats.git_diff_deleted_lines, 1);
    // lines 2 and 3 of src/lib.rs were added and are attested to the prompt
    assert_eq!(stats.ai_accepted, 2);
    assert_eq!(stats.ai_additions, 2);
    assert_eq!(stats.human_additions, 0);
    assert_eq!(stats.unknown_additions, 3);
    assert_eq!(stats.tool_model_breakdown.len(), 1);
    assert_eq!(stats.tool_model_breakdown[0].0, "cursor::model-4");
}

#[test]
fn stats_from_hunks_of_a_merge_credit_no_ai_lines() {
    let log = log_with_prompt(
        "p1",
        prompt("cursor", "s", "model-4", 3),
        "test.txt",
        vec![LineRange::Range(1, 2)],
    );
    let hunks = vec![hunk("test.txt", vec![1, 2], vec![])];
    let stats = stats_for_commit_stats_from_hunks(2, &hunks, &vec![false], Some(&log));
    assert_eq!(stats.ai_accepted, 0);
    assert_eq!(stats.git_diff_added_lines, 2);
}

#[test]
fn hunk_order_does_not_change_the_credit() {
    let log = log_with_prompt(
        "p1",
        prompt("cursor", "s", "model-4", 3),
        "f.rs",
        vec![LineRange::Range(1, 10)],
    );
    let a = vec![hunk("f.rs", vec![4, 2], vec![]), hunk("f.rs", vec![2, 9], vec![]), hunk("g.rs", vec![1], vec![])];
    let b = vec![hunk("g.rs", vec![1], vec![]), hunk("f.rs", vec![9, 2], vec![]), hunk("f.rs", vec![4], vec![])];
    let sa = stats_for_commit_stats_from_hunks(1, &a, &vec![false; 3], Some(&log));
    let sb = stats_for_commit_stats_from_hunks(1, &b, &vec![false; 3], Some(&log));
    assert_eq!(sa.ai_accepted, 3);
    assert_eq!(sb.ai_accepted, 3);
    assert_eq!(sa.git_diff_added_lines, 5);
    assert_eq!(sb.git_diff_added_lines, 4);
}

#[test]
fn unsorted_lists_are_not_read_when_nothing_is_counted() {
    let log = log_with_prompt(
        "p1",
        prompt("cursor", "s", "model-4", 3),
        "foo.rs",
        vec![LineRange::Range(1, 3)],
    );
    let added = vec![("foo.rs".to_string(), vec![3, 1, 2]), ("bar.rs".to_string(), vec![9, 4])];
    let (ai, human, per_tool) = accepted_lines_from_attestations(Some(&log), &added, true);
    assert_eq!((ai, human), (0, 0));
    assert!(per_tool.is_empty());
    let (ai, human, per_tool) = accepted_lines_from_attestations(None, &added, false);
    assert_eq!((ai, human), (0, 0));
    assert!(per_tool.is_empty());
    let only_bar = vec![("bar.rs".to_string(), vec![9, 4])];
    let (ai, human, per_tool) = accepted_lines_from_attestations(Some(&log), &only_bar, false);
    assert_eq!((ai, human), (0, 0));
    assert!(per_tool.is_empty());
}

#[test]
fn per_tool_counts_are_positive_and_within_the_ai_total() {
    let mut log = log_with_prompt(
        "p1",
        prompt("cursor", "s", "model-4", 3),
        "f.rs",
        vec![LineRange::Range(1, 3)],
    );
    log.metadata.prompts.push(("p2".to_string(), prompt("acme", "t", "large", 2)));
    log.attestations[0].add_entry(AttestationEntry::new("p2".to_string(), vec![LineRange::Range(5, 6)]));
    log.attestations[0].add_entry(AttestationEntry::new("p3".to_string(), vec![LineRange::Single(8)]));
    log.attestations[0].add_entry(AttestationEntry::new("p2".to_string(), vec![LineRange::Single(20)]));
    let added = vec![("f.rs".to_string(), vec![1, 2, 5, 8, 9])];
    let (ai, human, per_tool) = accepted_lines_from_attestations(Some(&log), &added, false);
    assert_eq!(human, 0);
    assert_eq!(ai, 4);
    let counts = per_tool.to_vec();
    assert_eq!(counts.len(), 2);
    assert!(counts.iter().all(|(_, n)| *n > 0));
    let sum: u32 = counts.iter().map(|(_, n)| *n).sum();
    assert_eq!(sum, 3);
    assert!(sum <= ai);
    assert_eq!(per_tool.get(&"cursor::model-4".to_string()), Some(&2));
    assert_eq!(per_tool.get(&"acme::large".to_string()), Some(&1));
}

#[test]
fn commit_stats_diff_totals_match_the_diff_stats() {
    let log = log_with_prompt(
        "p1",
        prompt("cursor", "s", "model-4", 3),
        "src/lib.rs",
        vec![LineRange::Range(1, 2)],
    );
    let hunks = vec![
        hunk("src/lib.rs", vec![1, 2, 3], vec![7]),
        hunk("Cargo.lock", vec![1, 2, 3, 4, 5, 6], vec![1, 2]),
        hunk("src/main.rs", vec![10], vec![4, 5]),
    ];
    let ignored = vec![false, true, false];
    for parents in [0usize, 1] {
        let stats = stats_for_commit_stats(parents, &hunks, &ignored, Some(&log));
        assert_eq!(
            (stats.git_diff_added_lines, stats.git_diff_deleted_lines),
            get_git_diff_stats(parents, &hunks, &ignored)
        );
        assert_eq!((stats.git_diff_added_lines, stats.git_diff_deleted_lines), (4, 3));
        assert_eq!(stats.ai_accepted, 2);
        assert_eq!(stats.unknown_additions, 2);
    }
    let merge = stats_for_commit_stats(2, &hunks, &ignored, Some(&log));
    assert_eq!((merge.git_diff_added_lines, merge.git_diff_deleted_lines), (0, 0));
    assert_eq!(get_git_diff_stats(2, &hunks, &ignored), (0, 0));
    assert_eq!(merge.ai_accepted, 0);
    assert_eq!(merge.ai_additions, 0);
    assert_eq!(merge.human_additions, 0);
    assert_eq!(merge.unknown_additions, 0);
    assert!(merge.tool_model_breakdown.is_empty());
}

fn headline(name: &str, accepted: u32) -> (String, ToolModelHeadlineStats) {
    (name.to_string(), ToolModelHeadlineStats { ai_additions: accepted, ai_accepted: accepted })
}

#[test]
fn top_model_has_the_most_accepted_lines() {
    assert_eq!(top_model(&vec![]), None);
    let b = vec![headline("a::x", 3), headline("c::z", 7), headline("b::y", 5)];
    assert_eq!(top_model(&b), Some(1));
    // among ties, the greatest name
    let ties = vec![headline("b::y", 4), headline("d::w", 4), headline("a::x", 4)];
    assert_eq!(top_model(&ties), Some(1));
    // a name counts with its last entry
    let repeated = vec![headline("a::x", 9), headline("b::y", 5), headline("a::x", 1)];
    assert_eq!(top_model(&repeated), Some(1));
}

#[test]
fn test_stats_with_lockfile_only_commit() {
    // A commit that only updates the lockfile: 2000 added lines.
    let hunks = vec![hunk("Cargo.lock", (1..=2000).collect(), vec![])];

    // Without ignore patterns every line counts.
    let stats_with = stats_for_commit_stats(1, &hunks, &vec![false], None);
    assert_eq!(stats_with.git_diff_added_lines, 2000);

    // With `Cargo.lock` ignored nothing does.
    let stats_without = stats_for_commit_stats(1, &hunks, &vec![true], None);
    assert_eq!(stats_without.git_diff_added_lines, 0);
    assert_eq!(stats_without.ai_additions, 0);
    assert_eq!(stats_without.human_additions, 0);
}

#[test]
fn test_stats_for_merge_commit_skips_ai_acceptance() {
    // The feature branch added `feature line` (line 2 of test.txt) with AI
    // attribution; the merge commit has two parents.
    let log = log_with_prompt(
        "f1e2d3c4",
        prompt("cursor", "session_4", "model-3", 1),
        "test.txt",
        vec![LineRange::Single(2)],
    );
    let hunks = vec![hunk("test.txt", vec![2], vec![]), hunk("main.txt", vec![1], vec![])];
    let stats = stats_for_commit_stats(2, &hunks, &vec![false, false], Some(&log));

    assert_eq!(stats.ai_accepted, 0);
}
