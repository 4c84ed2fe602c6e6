use kapitoshka::context::{
    build_effective_history, compact_with_summary, compaction_range, compress_tool_results,
    extract_tool_result_text, format_for_summary, truncate_tool_result, needs_compaction, summary_request, user_text,
    AssistantContent, Message, ToolResult, ToolResultContent, UserContent, KEEP_FIRST, KEEP_LAST,
    TOOL_RESULT_MAX_CHARS,
};

fn user_msg(text: &str) -> Message {
    user_text(text.to_string())
}

fn tool_result_msg(id: &str, content: &str) -> Message {
    Message::User {
        content: vec![UserContent::ToolResult(ToolResult {
            id: id.to_string(),
            content: vec![ToolResultContent::Text(content.to_string())],
        })],
    }
}

fn make_history(n: usize) -> Vec<Message> {
    (0..n).map(|i| user_msg(&format!("msg {i}"))).collect()
}

fn first_text(m: &Message) -> String {
    match m {
        Message::User { content } => match &content[0] {
            UserContent::Text(t) => t.clone(),
            UserContent::ToolResult(tr) => extract_tool_result_text(tr),
            UserContent::Other => String::new(),
        },
        Message::Assistant { .. } => String::new(),
        Message::System { content } => content.clone(),
    }
}

// ── needs_compaction ─────────────────────────────────────────────────────

#[test]
fn needs_compaction_percentage_under_threshold() {
    assert!(!needs_compaction(70_000, 131_072));
}

#[test]
fn needs_compaction_percentage_at_threshold() {
    // 75% of 131072 = 98304
    assert!(needs_compaction(98_304, 131_072));
}

#[test]
fn needs_compaction_no_context_size_under() {
    assert!(!needs_compaction(79_999, 0));
}

#[test]
fn needs_compaction_no_context_size_at() {
    assert!(needs_compaction(80_000, 0));
}

#[test]
fn needs_compaction_is_monotone_in_tokens() {
    // once 75% is reached, more tokens keep the verdict
    assert!(needs_compaction(75, 100));
    assert!(needs_compaction(76, 100));
    assert!(!needs_compaction(74, 100));
}

// ── compress_tool_results ────────────────────────────────────────────────

#[test]
fn compress_short_tool_result_unchanged() {
    let short = "a".repeat(10);
    let mut history = vec![tool_result_msg("1", &short)];
    for i in 0..KEEP_LAST {
        history.push(user_msg(&format!("filler {i}")));
    }
    compress_tool_results(&mut history);
    assert_eq!(first_text(&history[0]), short);
}

#[test]
fn compress_long_tool_result_truncated() {
    let long = "x".repeat(TOOL_RESULT_MAX_CHARS + 100);
    let mut history = vec![tool_result_msg("1", &long)];
    for i in 0..KEEP_LAST {
        history.push(user_msg(&format!("filler {i}")));
    }
    compress_tool_results(&mut history);
    let text = first_text(&history[0]);
    assert!(text.len() < long.len(), "expected truncation, got len {}", text.len());
    assert!(text.contains("truncated"), "expected truncation marker");
}

#[test]
fn compress_truncation_keeps_prefix_and_counts_cut_bytes() {
    let long = "x".repeat(TOOL_RESULT_MAX_CHARS + 100);
    let mut history = vec![tool_result_msg("1", &long)];
    for i in 0..KEEP_LAST {
        history.push(user_msg(&format!("filler {i}")));
    }
    compress_tool_results(&mut history);
    let expected = format!("{}… [100 chars truncated]", "x".repeat(TOOL_RESULT_MAX_CHARS));
    assert_eq!(first_text(&history[0]), expected);
}

#[test]
fn compress_cuts_at_character_boundary() {
    // 399 ASCII bytes then a 2-byte character straddling the 400-byte limit
    let text = format!("{}é{}", "a".repeat(399), "b".repeat(50));
    let mut history = vec![tool_result_msg("1", &text)];
    for i in 0..KEEP_LAST {
        history.push(user_msg(&format!("filler {i}")));
    }
    compress_tool_results(&mut history);
    let expected = format!("{}… [52 chars truncated]", "a".repeat(399));
    assert_eq!(first_text(&history[0]), expected);
}

#[test]
fn compress_leaves_recent_tool_results_alone() {
    let long = "y".repeat(TOOL_RESULT_MAX_CHARS + 100);
    let mut history = vec![tool_result_msg("1", &long)];
    for i in 0..KEEP_LAST - 1 {
        history.push(user_msg(&format!("filler {i}")));
    }
    compress_tool_results(&mut history);
    assert_eq!(first_text(&history[0]).len(), long.len(), "recent tool result should not be truncated");
}

// ── format_for_summary ───────────────────────────────────────────────────

#[test]
fn format_includes_user_text() {
    let msgs = vec![user_msg("hello world")];
    let out = format_for_summary(&msgs, "");
    assert!(out.contains("User: hello world"));
}

#[test]
fn format_includes_existing_scratchpad() {
    let msgs = vec![user_msg("task")];
    let out = format_for_summary(&msgs, "- prior fact");
    assert!(out.contains("Previous memory"));
    assert!(out.contains("prior fact"));
}

#[test]
fn format_for_summary_exact_text() {
    let msgs = vec![
        user_msg("fix it"),
        Message::Assistant {
            content: vec![
                AssistantContent::Text("on it".to_string()),
                AssistantContent::ToolCall {
                    name: "read_file".to_string(),
                    arguments: "{\"path\":\"a.rs\"}".to_string(),
                },
            ],
        },
        tool_result_msg("c1", "fn main() {}"),
        Message::System { content: "be brief".to_string() },
    ];
    let out = format_for_summary(&msgs, "- old");
    assert_eq!(
        out,
        "Previous memory:\n- old\n\nNew turns to incorporate:\nUser: fix it\nAssistant: on it\n\
         ToolCall: read_file({\"path\":\"a.rs\"})\nToolResult[c1]: fn main() {}\nSystem: be brief\n"
    );
}

#[test]
fn format_for_summary_cuts_long_tool_results_at_200_bytes() {
    let msgs = vec![tool_result_msg("t", &"z".repeat(250))];
    let out = format_for_summary(&msgs, "");
    assert_eq!(out, format!("ToolResult[t]: {}…\n", "z".repeat(200)));
}

// ── compaction ───────────────────────────────────────────────────────────

#[test]
fn compact_skipped_when_too_short() {
    let history = make_history(KEEP_FIRST + KEEP_LAST);
    assert!(
        history.len() <= KEEP_FIRST + KEEP_LAST,
        "should not compact when len <= KEEP_FIRST + KEEP_LAST"
    );
    assert_eq!(compaction_range(history.len()), None);
    assert!(summary_request(&history, "").is_none());
    let mut h = history;
    let mut pad = String::from("keep");
    assert!(!compact_with_summary(&mut h, &mut pad, Some("s".to_string())));
    assert_eq!(h.len(), KEEP_FIRST + KEEP_LAST);
    assert_eq!(pad, "keep");
}

#[test]
fn compact_drop_zone_correct() {
    let n = 16_usize;
    let history = make_history(n);
    let drop_end = n - KEEP_LAST;
    assert_eq!(KEEP_FIRST, 2);
    assert_eq!(drop_end, n - KEEP_LAST);
    let drop_zone = &history[KEEP_FIRST..drop_end];
    assert_eq!(drop_zone.len(), n - KEEP_FIRST - KEEP_LAST);
    assert_eq!(compaction_range(n), Some((KEEP_FIRST, drop_end)));
}

#[test]
fn summary_request_covers_dropped_turns() {
    let history = make_history(12);
    let text = summary_request(&history, "").expect("long enough");
    assert_eq!(text, "User: msg 2\nUser: msg 3\n");
}

#[test]
fn compact_replaces_middle_with_summary() {
    let mut history = make_history(16);
    let mut pad = String::new();
    assert!(compact_with_summary(&mut history, &mut pad, Some("- did things".to_string())));
    assert_eq!(history.len(), KEEP_FIRST + 1 + KEEP_LAST);
    assert_eq!(first_text(&history[0]), "msg 0");
    assert_eq!(first_text(&history[1]), "msg 1");
    assert_eq!(first_text(&history[2]), "[Conversation summary]\n- did things");
    assert_eq!(first_text(&history[3]), "msg 8");
    assert_eq!(first_text(&history[10]), "msg 15");
    assert_eq!(pad, "- did things");
}

#[test]
fn compact_without_summary_uses_placeholder() {
    let mut history = make_history(11);
    let mut pad = String::from("old");
    assert!(compact_with_summary(&mut history, &mut pad, None));
    assert_eq!(pad, "(summary unavailable — prior turns dropped)");
    assert_eq!(
        first_text(&history[2]),
        "[Conversation summary]\n(summary unavailable — prior turns dropped)"
    );
}

// ── build_effective_history ──────────────────────────────────────────────

#[test]
fn effective_history_no_scratchpad_is_clone() {
    let history = vec![user_msg("hello"), user_msg("world")];
    let eff = build_effective_history(&history, "");
    assert_eq!(eff.len(), history.len());
    assert_eq!(first_text(&eff[1]), "world");
}

#[test]
fn effective_history_prepends_scratchpad_message() {
    let history = vec![user_msg("task")];
    let eff = build_effective_history(&history, "- prior fact");
    assert_eq!(eff.len(), 2);
    let t = first_text(&eff[0]);
    assert!(t.contains("[Session Memory]"));
    assert!(t.contains("prior fact"));
    assert_eq!(first_text(&eff[1]), "task");
}

#[test]
fn effective_history_does_not_mutate_original() {
    let history = vec![user_msg("a"), user_msg("b")];
    let _ = build_effective_history(&history, "memo");
    assert_eq!(history.len(), 2);
}

#[test]
fn truncate_tool_result_directly() {
    let mut tr = ToolResult {
        id: "t".to_string(),
        content: vec![ToolResultContent::Text("é".repeat(250))],
    };
    truncate_tool_result(&mut tr);
    assert_eq!(tr.id, "t");
    assert_eq!(
        extract_tool_result_text(&tr),
        format!("{}… [100 chars truncated]", "é".repeat(200))
    );
    let mut short = ToolResult {
        id: "s".to_string(),
        content: vec![ToolResultContent::Text("abc".to_string())],
    };
    truncate_tool_result(&mut short);
    assert_eq!(extract_tool_result_text(&short), "abc");
}
