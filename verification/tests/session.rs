use kapitoshka::agent::{
    build_system_prompt, classify_line, emit_text, model_choice, on_final, on_reasoning,
    on_reasoning_delta, on_text, on_tool_call, on_tool_result, resolve_model_selection,
    take_final_response, LineAction, ModelChoice, StreamAction, StreamState, ThinkOut,
    ThinkingPrinter, SYSTEM_PROMPT_BASE,
};
use kapitoshka::permission::is_affirmative;

fn models() -> Vec<String> {
    vec!["a".to_string(), "b".to_string(), "c".to_string()]
}

fn describe(actions: &[StreamAction]) -> Vec<String> {
    actions
        .iter()
        .map(|a| match a {
            StreamAction::Emit(t) => format!("emit:{t}"),
            StreamAction::Think(t) => format!("think:{t}"),
            StreamAction::ThinkEnd => "think-end".to_string(),
            StreamAction::RecordThinking(t) => format!("record:{t}"),
            StreamAction::RecordThinkingEnd => "record-end".to_string(),
        })
        .collect()
}

#[test]
fn system_prompt_appends_agent_rules() {
    assert_eq!(build_system_prompt(None), SYSTEM_PROMPT_BASE);
    assert_eq!(build_system_prompt(Some("  \n")), SYSTEM_PROMPT_BASE);
    let md = "Use conventional commits.\n";
    assert_eq!(
        build_system_prompt(Some(md)),
        format!("{SYSTEM_PROMPT_BASE}\n\n# Project Rules (AGENTS.md)\n\nUse conventional commits.")
    );
    // only another agent's section: no rules for us
    assert_eq!(build_system_prompt(Some("## otheragent\nbe terse\n")), SYSTEM_PROMPT_BASE);
}

#[test]
fn lines_typed_at_the_prompt() {
    assert!(classify_line("   ").0 == LineAction::Skip);
    assert!(classify_line(" exit ").0 == LineAction::Quit);
    assert!(classify_line("quit").0 == LineAction::Quit);
    assert!(classify_line("/model").0 == LineAction::SwitchModel);
    let (action, text) = classify_line("  fix the bug\n");
    assert!(action == LineAction::Prompt);
    assert_eq!(text, "fix the bug");
}

#[test]
fn model_selection_by_number_or_name() {
    assert_eq!(resolve_model_selection("2", &models()).as_deref(), Some("b"));
    assert_eq!(resolve_model_selection("0", &models()), None);
    assert_eq!(resolve_model_selection("4", &models()), None);
    assert_eq!(resolve_model_selection("c", &models()).as_deref(), Some("c"));
    assert_eq!(resolve_model_selection("d", &models()), None);
    assert!(matches!(model_choice(" 3 ", &models(), "a"), ModelChoice::Switch(m) if m == "c"));
    assert!(matches!(model_choice("a", &models(), "a"), ModelChoice::Keep));
    assert!(matches!(model_choice("zz", &models(), "a"), ModelChoice::Invalid));
}

#[test]
fn final_response_used_only_when_nothing_streamed() {
    let mut text = String::new();
    assert!(take_final_response(&mut text, "answer"));
    assert_eq!(text, "answer");
    assert!(!take_final_response(&mut text, "other"));
    assert_eq!(text, "answer");
    let mut empty = String::new();
    assert!(!take_final_response(&mut empty, ""));
}

#[test]
fn streamed_text_with_think_block() {
    let (state, acts) = on_text(StreamState::Streaming { tail: String::new() }, "Hi <thi", true);
    assert_eq!(describe(&acts), ["emit:Hi "]);
    let (state, acts) = on_text(state, "nk>hmm</think>ok", true);
    assert_eq!(describe(&acts), ["think:hmm", "think-end", "emit:ok"]);
    let acts = on_final(&state, true);
    assert!(acts.is_empty());
}

#[test]
fn tool_markup_is_discarded_until_the_result() {
    let (state, acts) = on_text(StreamState::Streaming { tail: String::new() }, "a<tool_call>{}", false);
    assert_eq!(describe(&acts), ["emit:a"]);
    let (state, acts) = on_text(state, "more", false);
    assert!(acts.is_empty());
    assert!(matches!(state, StreamState::InToolCall));
    assert!(matches!(on_tool_call(), StreamState::InToolCall));
    assert!(matches!(on_tool_result(), StreamState::Streaming { tail } if tail.is_empty()));
}

#[test]
fn final_flush_emits_held_tail() {
    let (state, acts) = on_text(StreamState::Streaming { tail: String::new() }, "x <", false);
    assert_eq!(describe(&acts), ["emit:x "]);
    assert_eq!(describe(&on_final(&state, false)), ["emit:<"]);
}

#[test]
fn reasoning_is_recorded_and_shown_when_thinking() {
    assert_eq!(describe(&on_reasoning_delta("r", true)), ["record:r", "think:r"]);
    assert_eq!(describe(&on_reasoning_delta("r", false)), ["record:r"]);
    assert_eq!(
        describe(&on_reasoning("why", true)),
        ["record:why", "record-end", "think:why", "think-end"]
    );
}

#[test]
fn thinking_printer_borders_every_line() {
    let mut p = ThinkingPrinter::new();
    let out = p.feed("ab\ncd");
    let shown: Vec<String> = out
        .iter()
        .map(|o| match o {
            ThinkOut::Start => "<start>".to_string(),
            ThinkOut::Prefix => "│ ".to_string(),
            ThinkOut::Chunk(t) => t.clone(),
        })
        .collect();
    assert_eq!(shown, ["<start>", "│ ", "ab", "\n", "│ ", "cd"]);
    assert!(!p.at_line_start);
    let out = p.feed("\n");
    assert_eq!(out.len(), 1);
    assert!(p.at_line_start);
    assert!(p.finish());
    assert!(!p.finish());
}

#[test]
fn emitted_text_accumulates() {
    let mut started = false;
    let mut text = String::new();
    assert!(emit_text("a", &mut started, &mut text, false));
    assert!(!emit_text("b", &mut started, &mut text, false));
    assert_eq!(text, "ab");
    let mut quiet = false;
    assert!(!emit_text("c", &mut quiet, &mut text, true));
    assert!(!quiet);
    assert_eq!(text, "abc");
}

#[test]
fn permission_answers() {
    assert!(is_affirmative(" Y\n"));
    assert!(is_affirmative("yes"));
    assert!(!is_affirmative("no"));
    assert!(!is_affirmative(""));
}

/// Everything a sequence of chunks puts out (visible text, reasoning and
/// block ends, adjacent pieces of one kind merged), with the final state.
fn run_chunks(chunks: &[&str], thinking: bool) -> (Vec<(char, String)>, String) {
    let mut state = StreamState::Streaming { tail: String::new() };
    let mut out: Vec<(char, String)> = Vec::new();
    let mut add = |kind: char, t: &str| {
        if t.is_empty() && kind != 'E' {
            return;
        }
        match out.last_mut() {
            Some((k, s)) if *k == kind && kind != 'E' => s.push_str(t),
            _ => out.push((kind, t.to_string())),
        }
    };
    for c in chunks {
        let (next, acts) = on_text(state, c, thinking);
        state = next;
        for a in acts {
            match a {
                StreamAction::Emit(t) => add('T', &t),
                StreamAction::Think(t) => add('R', &t),
                StreamAction::ThinkEnd => add('E', ""),
                _ => {}
            }
        }
    }
    let end = match &state {
        StreamState::Streaming { tail } => format!("streaming:{tail}"),
        StreamState::InThink { tail } => format!("think:{tail}"),
        StreamState::InToolCall => "tool".to_string(),
    };
    (out, end)
}

#[test]
fn streaming_output_does_not_depend_on_chunking() {
    let text = "a <b<thi\u{e9}nk>x<think>why</thi</think>ok </think><tool_call>{\"x\":1}";
    let chars: Vec<char> = text.chars().collect();
    let whole = run_chunks(&[text], true);
    for cut in 0..=chars.len() {
        let first: String = chars[..cut].iter().collect();
        let second: String = chars[cut..].iter().collect();
        assert_eq!(run_chunks(&[&first, &second], true), whole, "split at {cut}");
    }
    for cut in 0..=chars.len() {
        let first: String = chars[..cut].iter().collect();
        let second: String = chars[cut..].iter().collect();
        assert_eq!(run_chunks(&[&first, &second], false), run_chunks(&[text], false));
    }
}

#[test]
fn thinking_printer_passes_every_character_on() {
    let mut p = ThinkingPrinter::new();
    let mut seen = String::new();
    for chunk in ["first li", "ne\nsecond\n", "", "\nthird"] {
        for o in p.feed(chunk) {
            if let ThinkOut::Chunk(t) = o {
                seen.push_str(&t);
            }
        }
    }
    assert_eq!(seen, "first line\nsecond\n\nthird");
}
