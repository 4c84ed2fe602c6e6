use kapitoshka::completer::KapHelper;
use kapitoshka::skills::Skill;

fn helper(names: &[&str]) -> KapHelper {
    let skills = names
        .iter()
        .map(|n| Skill::new(n, &format!("{n} description"), "template"))
        .collect();
    KapHelper::new(skills)
}

// ── Completer ─────────────────────────────────────────────────────────────

#[test]
fn complete_empty_line_returns_nothing() {
    let h = helper(&["/review"]);
    let (_, candidates) = h.complete("", 0);
    assert!(candidates.is_empty());
}

#[test]
fn complete_plain_text_returns_nothing() {
    let h = helper(&["/review"]);
    let (_, candidates) = h.complete("fix the bug", 11);
    assert!(candidates.is_empty());
}

#[test]
fn complete_slash_alone_returns_all_commands() {
    let h = helper(&["/review", "/verify"]);
    let (_, candidates) = h.complete("/", 1);
    // Built-in /model + 2 skills = 3
    assert_eq!(candidates.len(), 3);
}

#[test]
fn complete_partial_prefix_filters_candidates() {
    let h = helper(&["/review", "/verify", "/explain"]);
    let (_, candidates) = h.complete("/ve", 3);
    assert_eq!(candidates.len(), 1);
    assert_eq!(candidates[0].replacement, "/verify");
}

#[test]
fn complete_exact_match_still_returned() {
    let h = helper(&["/review"]);
    let (_, candidates) = h.complete("/review", 7);
    assert_eq!(candidates.len(), 1);
    assert_eq!(candidates[0].replacement, "/review");
}

#[test]
fn complete_replacement_starts_at_zero() {
    let h = helper(&["/review"]);
    let (start, _) = h.complete("/re", 3);
    assert_eq!(start, 0);
}

#[test]
fn complete_builtin_model_always_present() {
    let h = helper(&[]);
    let (_, candidates) = h.complete("/m", 2);
    assert!(candidates.iter().any(|c| c.replacement == "/model"));
}

#[test]
fn complete_display_shows_description_in_grey() {
    let h = helper(&[]);
    let (_, candidates) = h.complete("/mo", 3);
    assert_eq!(candidates[0].display, "/model  \x1b[90mswitch the active model\x1b[0m");
}

#[test]
fn complete_uses_only_text_before_cursor() {
    let h = helper(&["/review", "/verify"]);
    let (start, candidates) = h.complete("/vx", 2);
    assert_eq!(start, 0);
    assert_eq!(candidates.len(), 1);
    let (start, candidates) = h.complete("a /v", 4);
    assert_eq!(start, 4);
    assert!(candidates.is_empty());
}

// ── Hinter ────────────────────────────────────────────────────────────────

#[test]
fn hint_plain_text_returns_none() {
    let h = helper(&["/review"]);
    assert!(h.hint("fix bug", 7).is_none());
}

#[test]
fn hint_cursor_not_at_end_returns_none() {
    let h = helper(&["/review"]);
    assert!(h.hint("/review", 1).is_none());
}

#[test]
fn hint_partial_command_returns_suffix() {
    let h = helper(&["/review"]);
    let hint = h.hint("/rev", 4).expect("hint");
    assert_eq!(hint.display(), "iew");
}

#[test]
fn hint_exact_command_returns_none() {
    let h = helper(&["/review"]);
    assert!(h.hint("/review", 7).is_none());
}

#[test]
fn hint_completion_matches_display() {
    let h = helper(&["/verify"]);
    let hint = h.hint("/ver", 4).expect("hint");
    assert_eq!(hint.completion(), Some("ify"));
}

#[test]
fn hint_slash_alone_hints_first_alphabetical() {
    let h = helper(&["/review"]);
    let hint = h.hint("/", 1).expect("hint");
    assert_eq!(hint.display(), "model");
}

// ── Highlighter ───────────────────────────────────────────────────────────

#[test]
fn highlight_colours_commands_only() {
    let h = helper(&[]);
    assert_eq!(h.highlight("/model"), "\x1b[32m/model\x1b[0m");
    assert_eq!(h.highlight("hello"), "hello");
    assert!(h.highlight_char("/x"));
    assert!(!h.highlight_char("x/"));
    assert_eq!(h.highlight_hint("iew"), "\x1b[90miew\x1b[0m");
}

#[test]
fn all_commands_lists_builtin_first() {
    let h = helper(&["/a", "/b"]);
    let cmds = h.all_commands();
    assert_eq!(cmds.len(), 3);
    assert_eq!(cmds[0].0, "/model");
    assert_eq!(cmds[0].1, "switch the active model");
    assert_eq!(cmds[1].0, "/a");
    assert_eq!(cmds[2].1, "/b description");
}
