use kapitoshka::tools::todo::{TodoItem, TodoStatus};
use kapitoshka::ui::{
    char_paint, color_for_char, context_stats_text, model_list_lines, subagent_preview, todo_lines,
    Paint, Tint,
};

#[test]
fn banner_colours() {
    assert!(color_for_char('·', 0) == Some(Tint::DarkGrey));
    assert!(color_for_char('○', 2) == Some(Tint::Cyan));
    assert!(color_for_char('○', 3) == Some(Tint::Blue));
    assert!(color_for_char('\\', 4) == Some(Tint::Outline));
    assert!(color_for_char('k', 5).is_none());
    assert!(char_paint('k', 5, true) == Paint::Label);
    assert!(char_paint('k', 1, false) == Paint::Plain);
    assert!(char_paint('◕', 5, true) == Paint::Colored(Tint::Cyan));
}

#[test]
fn context_stats_line() {
    assert_eq!(
        context_stats_text(10, 5, 15, 0, 0, 0, 0, false),
        "  ctx  in:10  out:5  total:15"
    );
    assert_eq!(
        context_stats_text(10, 5, 15, 3, 2, 98_304, 131_072, true),
        "  ✂ history compacted\n  ctx  in:10  out:5  total:15  cached:3  think:2  75% of 131k"
    );
}

#[test]
fn plan_lines_show_status_icons() {
    let todos = vec![
        TodoItem { id: "1".to_string(), content: "a".to_string(), status: TodoStatus::Pending },
        TodoItem { id: "2".to_string(), content: "b".to_string(), status: TodoStatus::InProgress },
        TodoItem { id: "3".to_string(), content: "c".to_string(), status: TodoStatus::Completed },
    ];
    assert_eq!(todo_lines(&todos), vec!["  ☐ a", "  ⟳ b", "  ✓ c"]);
}

#[test]
fn subagent_preview_cuts_at_72_characters() {
    assert_eq!(subagent_preview("short"), "short");
    let long = "é".repeat(80);
    assert_eq!(subagent_preview(&long), format!("{}…", "é".repeat(72)));
    assert_eq!(subagent_preview(&"x".repeat(72)), "x".repeat(72));
}

#[test]
fn model_list_numbers_and_marks_current() {
    let models: Vec<String> = (1..=10).map(|i| format!("m{i}")).collect();
    let lines = model_list_lines(&models, "m2");
    assert_eq!(lines[0], ("  [ 1] m1".to_string(), false));
    assert_eq!(lines[1], ("  [ 2] m2 ◀".to_string(), true));
    assert_eq!(lines[9], ("  [10] m10".to_string(), false));
}
