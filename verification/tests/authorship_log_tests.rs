use git_ai::authorship_log::{AgentId, Message, PromptRecord};
use git_ai::line_range::LineRange;
use std::cmp::Ordering;

fn create_prompt_record(messages: usize, additions: u32, deletions: u32) -> PromptRecord {
    let agent_id = AgentId {
        tool: "test".to_string(),
        id: "test-id".to_string(),
        model: "test-model".to_string(),
    };

    let message_list = (0..messages)
        .map(|_| Message::user("test message".to_string(), None))
        .collect();

    PromptRecord {
        agent_id,
        human_author: None,
        messages: message_list,
        total_additions: additions,
        total_deletions: deletions,
        accepted_lines: 0,
        overriden_lines: 0,
        messages_url: None,
        custom_attributes: None,
    }
}

#[test]
fn test_prompt_record_ord_equality() {
    // Two records with identical messages.len(), total_additions, and
    // total_deletions should compare as Equal even when other fields differ.
    let mut a = create_prompt_record(3, 10, 5);
    a.agent_id.tool = "tool_a".to_string();
    a.agent_id.id = "id_a".to_string();
    a.human_author = Some("alice".to_string());

    let mut b = create_prompt_record(3, 10, 5);
    b.agent_id.tool = "tool_b".to_string();
    b.agent_id.id = "id_b".to_string();
    b.human_author = Some("bob".to_string());

    assert_eq!(
        a.cmp(&b),
        Ordering::Equal,
        "Records with same messages.len(), total_additions, and total_deletions \
         should compare as Equal regardless of other fields"
    );
}

#[test]
fn test_prompt_record_sorting() {
    let mut records = [
        create_prompt_record(5, 10, 5), // newest - has messages, additions, deletions
        create_prompt_record(0, 0, 0),  // oldest - empty
        create_prompt_record(2, 5, 3),  // middle
        create_prompt_record(0, 10, 0), // has additions
        create_prompt_record(0, 0, 5),  // has deletions
    ];

    records.sort_by(|a, b| a.cmp(b));

    // After sorting, oldest (empty) should be first
    assert_eq!(records[0].messages.len(), 0);
    assert_eq!(records[0].total_additions, 0);
    assert_eq!(records[0].total_deletions, 0);

    // Records with activity should come after
    assert!(
        !records[1].messages.is_empty()
            || records[1].total_additions > 0
            || records[1].total_deletions > 0
    );
}

#[test]
fn test_shift_single_underflow_returns_none() {
    // Single(5) at insertion_point=3 with offset=-10: 5 >= 3, so shifted = 5 + (-10) = -5 => None
    let result = LineRange::Single(5).shift(3, -10);
    assert_eq!(result, None);
}

#[test]
fn test_shift_range_zero_offset_identity() {
    // Zero offset should be the identity transform
    let result = LineRange::Range(10, 20).shift(5, 0);
    assert_eq!(result, Some(LineRange::Range(10, 20)));
}

#[test]
fn test_shift_range_partial_underflow() {
    // Range(2, 10) at insertion_point=0, offset=-5: the start would go negative
    let result = LineRange::Range(2, 10).shift(0, -5);
    assert_eq!(result, None);
}

#[test]
fn test_shift_range_collapses_to_single() {
    // Range(10, 11) at insertion_point=11, offset=-1: 10 stays, 11 becomes 10
    let result = LineRange::Range(10, 11).shift(11, -1);
    assert_eq!(result, Some(LineRange::Single(10)));
}

#[test]
fn test_shift_single_below_insertion_unchanged() {
    // Single(3) with insertion_point=5: 3 < 5, so line is unchanged
    let result = LineRange::Single(3).shift(5, 10);
    assert_eq!(result, Some(LineRange::Single(3)));
}

#[test]
fn test_shift_single_large_value_i64_arithmetic() {
    // Single(u32::MAX) at insertion_point=0, offset=1 leaves the u32 range.
    let result = LineRange::Single(u32::MAX).shift(0, 1);
    assert_eq!(
        result, None,
        "u32::MAX + 1 should overflow u32 and return None"
    );
}

#[test]
fn test_prompt_record_ord_transitivity() {
    let a = create_prompt_record(1, 0, 0); // 1 message
    let b = create_prompt_record(2, 0, 0); // 2 messages
    let c = create_prompt_record(3, 0, 0); // 3 messages

    assert!(a < b, "a should be less than b");
    assert!(b < c, "b should be less than c");
    assert!(a < c, "transitivity: a should be less than c");
}

#[test]
fn prompt_record_order_is_antisymmetric() {
    let a = create_prompt_record(1, 4, 0);
    let b = create_prompt_record(1, 2, 9);
    assert_eq!(a.cmp(&b), Ordering::Greater);
    assert_eq!(b.cmp(&a), Ordering::Less);
    assert!(b < a);
    assert_eq!(a.partial_cmp(&a), Some(Ordering::Equal));
}

#[test]
fn prompt_record_order_breaks_ties_on_deletions() {
    let a = create_prompt_record(2, 3, 1);
    let b = create_prompt_record(2, 3, 4);
    assert_eq!(a.cmp(&b), Ordering::Less);
}

#[test]
fn message_constructors_keep_their_fields() {
    let m = Message::assistant("done".to_string(), Some("t1".to_string()));
    assert_eq!(
        m,
        Message::Assistant { text: "done".to_string(), timestamp: Some("t1".to_string()) }
    );
}

#[test]
fn line_range_contains_and_overlaps() {
    assert!(LineRange::Single(4).contains(4));
    assert!(!LineRange::Single(4).contains(5));
    assert!(LineRange::Range(2, 6).contains(6));
    assert!(!LineRange::Range(2, 6).contains(7));
    // overlap is symmetric
    let a = LineRange::Range(1, 5);
    let b = LineRange::Range(5, 9);
    assert!(a.overlaps(&b));
    assert!(b.overlaps(&a));
    assert!(!LineRange::Single(3).overlaps(&LineRange::Range(4, 8)));
    assert!(!LineRange::Range(4, 8).overlaps(&LineRange::Single(3)));
}

#[test]
fn line_range_remove_splits_and_trims() {
    assert_eq!(
        LineRange::Range(1, 10).remove(&LineRange::Range(4, 6)),
        vec![LineRange::Range(1, 3), LineRange::Range(7, 10)]
    );
    assert_eq!(
        LineRange::Range(1, 3).remove(&LineRange::Single(2)),
        vec![LineRange::Range(1, 1), LineRange::Range(3, 3)]
    );
    assert_eq!(LineRange::Range(1, 3).remove(&LineRange::Range(0, 9)), vec![]);
    assert_eq!(LineRange::Single(4).remove(&LineRange::Single(5)), vec![LineRange::Single(4)]);
    assert_eq!(LineRange::Range(1, 5).remove(&LineRange::Single(1)), vec![LineRange::Range(2, 5)]);
}

#[test]
fn compress_then_expand_gives_back_the_lines() {
    let lines = [1, 2, 3, 5, 7, 9, 10];
    let ranges = LineRange::compress_lines(&lines);
    assert_eq!(
        ranges,
        vec![
            LineRange::Range(1, 3),
            LineRange::Single(5),
            LineRange::Single(7),
            LineRange::Range(9, 10)
        ]
    );
    let mut expanded: Vec<u32> = Vec::new();
    for r in &ranges {
        expanded.extend(r.expand());
    }
    assert_eq!(expanded, vec![1, 2, 3, 5, 7, 9, 10]);
    assert_eq!(LineRange::compress_lines(&[]), vec![]);
}

#[test]
fn compress_handles_the_top_of_the_range() {
    let lines = [u32::MAX - 1, u32::MAX];
    assert_eq!(
        LineRange::compress_lines(&lines),
        vec![LineRange::Range(u32::MAX - 1, u32::MAX)]
    );
}

#[test]
fn shift_then_shift_back_round_trips() {
    let r = LineRange::Range(10, 20);
    let there = r.shift(5, 7).unwrap();
    assert_eq!(there, LineRange::Range(17, 27));
    assert_eq!(there.shift(12, -7), Some(r));
}

#[test]
fn line_ranges_display_as_numbers_and_brackets() {
    assert_eq!(LineRange::Single(5).to_string(), "5");
    assert_eq!(LineRange::Single(0).to_string(), "0");
    assert_eq!(LineRange::Range(3, 17).to_string(), "[3, 17]");
    assert_eq!(LineRange::Single(u32::MAX).to_string(), "4294967295");
}

#[test]
fn contains_agrees_with_expand() {
    for r in [LineRange::Single(4), LineRange::Range(3, 6), LineRange::Range(0, 1)] {
        let lines = r.expand();
        for l in 0..10 {
            assert_eq!(r.contains(l), lines.contains(&l));
        }
    }
}
