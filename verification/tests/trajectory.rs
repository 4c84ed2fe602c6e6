use kapitoshka::trajectory::{Span, TrajectoryRecorder, TurnRecord};

const TS: &str = "2025-01-01T00:00:00Z";

fn finish(r: &mut TrajectoryRecorder, text: &str, now: u64) -> TurnRecord {
    r.finish_turn(text, 0, 0, 0, 0, now, TS.to_string())
}

fn kind(s: &Span) -> &'static str {
    match s {
        Span::Thinking { .. } => "thinking",
        Span::ToolCall { .. } => "tool_call",
        Span::ToolResult { .. } => "tool_result",
        Span::Response { .. } => "response",
    }
}

// ── basic turn flush ─────────────────────────────────────────────────────

#[test]
fn empty_turn_writes_one_record() {
    let mut r = TrajectoryRecorder::new(0);
    r.start_turn("hello", 0);
    let rec = r.finish_turn("world", 10, 5, 2, 0, 3, TS.to_string());
    assert_eq!(rec.turn, 1);
    assert_eq!(rec.user, "hello");
    assert_eq!(rec.spans.len(), 1);
}

#[test]
fn multiple_turns_append_multiple_records() {
    let mut r = TrajectoryRecorder::new(0);
    let mut records = Vec::new();
    for i in 1..=3 {
        r.start_turn(&format!("q{i}"), 0);
        records.push(finish(&mut r, &format!("a{i}"), 0));
    }
    assert_eq!(records.len(), 3);
    assert_eq!(records[0].turn, 1);
    assert_eq!(records[1].turn, 2);
    assert_eq!(records[2].turn, 3);
}

// ── response span ────────────────────────────────────────────────────────

#[test]
fn response_span_carries_token_counts() {
    let mut r = TrajectoryRecorder::new(0);
    r.start_turn("q", 0);
    let rec = r.finish_turn("ans", 100, 50, 30, 10, 0, TS.to_string());
    match rec.spans.iter().find(|s| kind(s) == "response").unwrap() {
        Span::Response { text, input_tokens, output_tokens, cached_tokens, reasoning_tokens } => {
            assert_eq!(*input_tokens, 100);
            assert_eq!(*output_tokens, 50);
            assert_eq!(*cached_tokens, 30);
            assert_eq!(*reasoning_tokens, 10);
            assert_eq!(text, "ans");
        }
        _ => unreachable!(),
    }
}

// ── thinking spans ───────────────────────────────────────────────────────

#[test]
fn thinking_buffered_into_single_span() {
    let mut r = TrajectoryRecorder::new(0);
    r.start_turn("q", 0);
    r.feed_thinking("chunk1 ");
    r.feed_thinking("chunk2");
    r.finish_thinking();
    let rec = finish(&mut r, "ans", 0);
    let thinking: Vec<_> = rec.spans.iter().filter(|s| kind(s) == "thinking").collect();
    assert_eq!(thinking.len(), 1);
    match thinking[0] {
        Span::Thinking { text } => assert_eq!(text, "chunk1 chunk2"),
        _ => unreachable!(),
    }
}

#[test]
fn empty_thinking_buffer_produces_no_span() {
    let mut r = TrajectoryRecorder::new(0);
    r.start_turn("q", 0);
    r.finish_thinking();
    let rec = finish(&mut r, "ans", 0);
    assert!(!rec.spans.iter().any(|s| kind(s) == "thinking"));
}

#[test]
fn thinking_buffer_cleared_between_turns() {
    let mut r = TrajectoryRecorder::new(0);
    r.start_turn("q1", 0);
    r.feed_thinking("turn1 thought");
    r.finish_thinking();
    finish(&mut r, "a1", 0);
    r.start_turn("q2", 0);
    let rec2 = finish(&mut r, "a2", 0);
    assert!(!rec2.spans.iter().any(|s| kind(s) == "thinking"));
}

// ── tool call / result spans ─────────────────────────────────────────────

#[test]
fn tool_call_span_recorded() {
    let mut r = TrajectoryRecorder::new(0);
    r.start_turn("q", 0);
    r.tool_call("id1", "read_file", Some("{\"path\":\"a.txt\"}".to_string()), 100);
    r.tool_result("id1", "file contents", 142);
    let rec = finish(&mut r, "ans", 200);
    match &rec.spans[0] {
        Span::ToolCall { id, name, input } => {
            assert_eq!(id, "id1");
            assert_eq!(name, "read_file");
            assert_eq!(input.as_deref(), Some("{\"path\":\"a.txt\"}"));
        }
        _ => panic!("expected a tool call"),
    }
    match &rec.spans[1] {
        Span::ToolResult { call_id, output, duration_ms } => {
            assert_eq!(call_id, "id1");
            assert_eq!(output, "file contents");
            assert_eq!(*duration_ms, 42);
        }
        _ => panic!("expected a tool result"),
    }
}

#[test]
fn tool_call_without_input_omits_field() {
    let mut r = TrajectoryRecorder::new(0);
    r.start_turn("q", 0);
    r.tool_call("id2", "list_dir", None, 0);
    r.tool_result("id2", "[]", 0);
    let rec = finish(&mut r, "ans", 0);
    match &rec.spans[0] {
        Span::ToolCall { input, .. } => assert!(input.is_none()),
        _ => panic!("expected a tool call"),
    }
}

#[test]
fn multiple_tool_calls_in_one_turn() {
    let mut r = TrajectoryRecorder::new(0);
    r.start_turn("q", 0);
    r.tool_call("c1", "read_file", None, 0);
    r.tool_result("c1", "content1", 0);
    r.tool_call("c2", "run_shell", Some("{\"cmd\":\"ls\"}".to_string()), 0);
    r.tool_result("c2", "a.txt", 0);
    let rec = finish(&mut r, "done", 0);
    let calls: Vec<_> = rec.spans.iter().filter(|s| kind(s) == "tool_call").collect();
    let results: Vec<_> = rec.spans.iter().filter(|s| kind(s) == "tool_result").collect();
    assert_eq!(calls.len(), 2);
    assert_eq!(results.len(), 2);
    match (calls[0], calls[1]) {
        (Span::ToolCall { id: a, .. }, Span::ToolCall { id: b, .. }) => {
            assert_eq!(a, "c1");
            assert_eq!(b, "c2");
        }
        _ => unreachable!(),
    }
}

#[test]
fn tool_result_without_pending_call_has_zero_duration() {
    let mut r = TrajectoryRecorder::new(0);
    r.start_turn("q", 0);
    r.tool_result("x", "out", 500);
    let rec = finish(&mut r, "done", 0);
    match &rec.spans[0] {
        Span::ToolResult { duration_ms, .. } => assert_eq!(*duration_ms, 0),
        _ => unreachable!(),
    }
}

// ── span ordering ────────────────────────────────────────────────────────

#[test]
fn spans_appear_in_emission_order() {
    let mut r = TrajectoryRecorder::new(0);
    r.start_turn("q", 0);
    r.feed_thinking("thought");
    r.finish_thinking();
    r.tool_call("t1", "read_file", None, 0);
    r.tool_result("t1", "data", 0);
    let rec = finish(&mut r, "reply", 0);
    let types: Vec<&str> = rec.spans.iter().map(kind).collect();
    assert_eq!(types, ["thinking", "tool_call", "tool_result", "response"]);
}

// ── metadata ─────────────────────────────────────────────────────────────

#[test]
fn total_duration_ms_is_non_negative() {
    let mut r = TrajectoryRecorder::new(0);
    r.start_turn("q", 1_000);
    let rec = finish(&mut r, "a", 1_250);
    assert_eq!(rec.total_duration_ms, 250);
    // a clock reading before the turn's start counts as no time at all
    r.start_turn("q", 1_000);
    let rec = finish(&mut r, "a", 900);
    assert_eq!(rec.total_duration_ms, 0);
}

#[test]
fn timestamp_is_valid_rfc3339() {
    let mut r = TrajectoryRecorder::new(0);
    r.start_turn("q", 0);
    let rec = finish(&mut r, "a", 0);
    assert_eq!(rec.timestamp, TS);
}

#[test]
fn appends_to_existing_file() {
    let mut records = Vec::new();
    {
        let mut r = TrajectoryRecorder::new(0);
        r.start_turn("first", 0);
        records.push(finish(&mut r, "a", 0));
    }
    {
        let mut r = TrajectoryRecorder::new(0);
        r.start_turn("second", 0);
        records.push(finish(&mut r, "b", 0));
    }
    assert_eq!(records.len(), 2);
    assert_eq!(records[1].user, "second");
}

#[test]
fn tool_result_matches_pending_call_by_id() {
    let mut r = TrajectoryRecorder::new(0);
    r.start_turn("q", 0);
    r.tool_call("a", "read_file", None, 100);
    r.tool_result("b", "other", 150);
    r.tool_result("a", "mine", 170);
    r.tool_result("a", "again", 190);
    let rec = finish(&mut r, "done", 200);
    let durations: Vec<u64> = rec
        .spans
        .iter()
        .filter_map(|s| match s {
            Span::ToolResult { duration_ms, .. } => Some(*duration_ms),
            _ => None,
        })
        .collect();
    assert_eq!(durations, vec![0, 70, 0]);
}
