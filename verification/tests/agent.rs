use kapitoshka::agent::{
    agent_sections, extract_agent_rules, find_tool_open, scan_normal, trailing_tool_tag_len, suffix_prefix_len, ContextStats, Usage, THINK_OPEN,
    TOOL_CALL_TAG,
};

// ── suffix_prefix_len ────────────────────────────────────────────────────

#[test]
fn suffix_prefix_no_overlap() {
    assert_eq!(suffix_prefix_len("hello world", "<think>"), 0);
}

#[test]
fn suffix_prefix_partial_think() {
    assert_eq!(suffix_prefix_len("foo <thi", "<think>"), 4);
}

#[test]
fn suffix_prefix_full_needle_length() {
    // When text ends with the complete needle, the full needle length is returned.
    assert_eq!(
        suffix_prefix_len("foo <think>", "<think>"),
        THINK_OPEN.len()
    );
}

#[test]
fn suffix_prefix_single_char_overlap() {
    assert_eq!(suffix_prefix_len("text <", "<think>"), 1);
}

#[test]
fn suffix_prefix_tool_call_partial() {
    assert_eq!(suffix_prefix_len("end <tool", TOOL_CALL_TAG), 5);
}

// ── scan_normal ──────────────────────────────────────────────────────────

#[test]
fn scan_normal_no_tags() {
    let (safe, tail, tag) = scan_normal("hello world");
    assert_eq!(safe, "hello world");
    assert_eq!(tag, "");
    assert_eq!(tail, "");
}

#[test]
fn scan_normal_holds_partial_think() {
    let (safe, tail, tag) = scan_normal("hello <thi");
    assert_eq!(safe, "hello ");
    assert_eq!(tag, "");
    assert_eq!(tail, "<thi");
}

#[test]
fn scan_normal_complete_think_tag() {
    let (safe, rest, tag) = scan_normal("before <think> after");
    assert_eq!(safe, "before ");
    assert_eq!(tag, THINK_OPEN);
    assert_eq!(rest, " after");
}

#[test]
fn scan_normal_complete_tool_call_tag() {
    let (safe, rest, tag) = scan_normal("before <tool_call> after");
    assert_eq!(safe, "before ");
    assert_eq!(tag, TOOL_CALL_TAG);
    assert_eq!(rest, " after");
}

#[test]
fn scan_normal_think_before_tool() {
    let (safe, rest, tag) = scan_normal("a <think>b<tool_call>c");
    assert_eq!(safe, "a ");
    assert_eq!(tag, THINK_OPEN);
    assert_eq!(rest, "b<tool_call>c");
}

#[test]
fn scan_normal_tool_before_think() {
    let (safe, rest, tag) = scan_normal("a <tool_call>b<think>c");
    assert_eq!(safe, "a ");
    assert_eq!(tag, TOOL_CALL_TAG);
    assert_eq!(rest, "b<think>c");
}

#[test]
fn scan_normal_suppresses_named_tool_tag() {
    let (safe, rest, tag) = scan_normal("before <todo_write>{\"todos\":[]}");
    assert_eq!(safe, "before ");
    assert_eq!(tag, TOOL_CALL_TAG);
    assert_eq!(rest, "{\"todos\":[]}");
}

#[test]
fn scan_normal_holds_partial_tool_tag() {
    let (safe, tail, tag) = scan_normal("text <todo");
    assert_eq!(safe, "text ");
    assert_eq!(tag, "");
    assert_eq!(tail, "<todo");
}

// ── ContextStats ─────────────────────────────────────────────────────────

fn make_usage(input: u64, output: u64, total: u64) -> Usage {
    Usage {
        input_tokens: input,
        output_tokens: output,
        total_tokens: total,
        cached_input_tokens: 0,
        cache_creation_input_tokens: 0,
        reasoning_tokens: 0,
    }
}

#[test]
fn context_stats_accumulates() {
    let mut ctx = ContextStats::new();
    ctx.add(&make_usage(100, 50, 150));
    ctx.add(&make_usage(200, 80, 280));
    assert_eq!(ctx.input_tokens, 300);
    assert_eq!(ctx.output_tokens, 130);
    assert_eq!(ctx.total_tokens, 430);
}

#[test]
fn context_stats_starts_zero() {
    let ctx = ContextStats::new();
    assert_eq!(ctx.input_tokens, 0);
    assert_eq!(ctx.output_tokens, 0);
    assert_eq!(ctx.total_tokens, 0);
}

// ── extract_agent_rules ──────────────────────────────────────────────────

#[test]
fn agent_rules_global_only() {
    let md = "Use conventional commits.\nRun tests before pushing.\n";
    let rules = extract_agent_rules(md, "kapitoshka");
    assert!(rules.contains("Use conventional commits"));
    assert!(rules.contains("Run tests"));
}

#[test]
fn agent_rules_picks_matching_section() {
    let md = "\
Global rule.

## kapitoshka
Agent-specific rule.

## other-agent
Should not appear.
";
    let rules = extract_agent_rules(md, "kapitoshka");
    assert!(rules.contains("Global rule"));
    assert!(rules.contains("Agent-specific rule"));
    assert!(!rules.contains("Should not appear"));
}

#[test]
fn agent_rules_skips_non_matching_section() {
    let md = "\
## other-agent
Other rule.
";
    let rules = extract_agent_rules(md, "kapitoshka");
    assert!(rules.is_empty());
}

#[test]
fn agent_rules_case_insensitive_heading() {
    let md = "\
## Kapitoshka
My rule.
";
    let rules = extract_agent_rules(md, "kapitoshka");
    assert!(rules.contains("My rule"));
}

#[test]
fn agent_rules_no_agent_sections() {
    let md = "Just global rules here.";
    let rules = extract_agent_rules(md, "kapitoshka");
    assert_eq!(rules, "Just global rules here.");
}

// ── tool tags ────────────────────────────────────────────────────────────

#[test]
fn find_tool_open_positions() {
    assert_eq!(find_tool_open("hi <todo_write>{}"), Some((3, 15)));
    assert_eq!(find_tool_open("a <b> <tool_call>"), Some((6, 17)));
    assert_eq!(find_tool_open("<Tool> <ab"), None);
    assert_eq!(find_tool_open("plain"), None);
}

#[test]
fn trailing_tool_tag_lengths() {
    assert_eq!(trailing_tool_tag_len("text <todo_wr"), 8);
    assert_eq!(trailing_tool_tag_len("a <"), 1);
    assert_eq!(trailing_tool_tag_len("abc"), 0);
    assert_eq!(trailing_tool_tag_len("<ab c"), 0);
    assert_eq!(trailing_tool_tag_len(""), 0);
}

#[test]
fn find_tool_open_gives_byte_offsets() {
    assert_eq!(find_tool_open("é<ab>"), Some((2, 6)));
    assert_eq!(find_tool_open("a <tool_call>b"), Some((2, 13)));
    assert_eq!(find_tool_open("<a> <B_c>"), None);
}

#[test]
fn agent_rules_deeper_foreign_heading_is_skipped() {
    let md = "Global rule.\n### other-agent\nOther rule.\n";
    assert_eq!(extract_agent_rules(md, "kapitoshka"), "Global rule.");
}

#[test]
fn agent_rules_deep_own_heading_is_kept() {
    let md = "G.\n###### KapiToshka \nMine.\n# other\nNot mine.\n";
    assert_eq!(extract_agent_rules(md, "kapitoshka"), "G.\n\nMine.");
}

#[test]
fn agent_sections_from_marked_lines() {
    let lines = vec![
        ("Global.".to_string(), None),
        ("## kapitoshka".to_string(), Some("kapitoshka".to_string())),
        ("Ours.".to_string(), None),
        ("### other".to_string(), Some("other".to_string())),
        ("Theirs.".to_string(), None),
    ];
    let (global, ours) = agent_sections(&lines, "kapitoshka");
    assert_eq!(global, "Global.\n");
    assert_eq!(ours, "Ours.\n");
}
