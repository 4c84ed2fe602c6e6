use kapitoshka::tools::squash::{
    cap_lines, collapse_runs, generic, is_cargo_signal, is_passing_test, normalise, push_run,
    squash, squash_cargo, squash_find, squash_git, squash_grep, strip_ansi,
};

// ── strip_ansi ────────────────────────────────────────────────────────────

#[test]
fn strip_ansi_removes_colour_codes() {
    let input = "\x1b[32mhello\x1b[0m world";
    assert_eq!(strip_ansi(input), "hello world");
}

#[test]
fn strip_ansi_passthrough_plain_text() {
    let input = "plain text";
    assert_eq!(strip_ansi(input), "plain text");
}

// ── collapse_runs ─────────────────────────────────────────────────────────

#[test]
fn collapse_runs_no_repeats() {
    let text = "a\nb\nc";
    assert_eq!(collapse_runs(text), "a\nb\nc");
}

#[test]
fn collapse_runs_three_identical() {
    let text = "foo\nfoo\nfoo";
    assert_eq!(collapse_runs(text), "foo (×3)");
}

#[test]
fn collapse_runs_mixed() {
    let text = "a\nb\nb\nc";
    assert_eq!(collapse_runs(text), "a\nb (×2)\nc");
}

// ── cap_lines ─────────────────────────────────────────────────────────────

#[test]
fn cap_lines_under_limit() {
    let text = "a\nb\nc";
    assert_eq!(cap_lines(text, 10), text);
}

#[test]
fn cap_lines_at_limit_appends_note() {
    let lines: Vec<String> = (0..15).map(|i| format!("line {i}")).collect();
    let text = lines.join("\n");
    let out = cap_lines(&text, 10);
    assert!(out.contains("[... 5 lines omitted]"));
    assert_eq!(out.lines().count(), 11); // 10 kept + trailer
}

// ── squash_cargo ──────────────────────────────────────────────────────────

#[test]
fn cargo_strips_compiling_lines() {
    let stderr = "   Compiling foo v0.1.0\n   Compiling bar v1.2.3\n    Finished dev\n";
    let out = squash_cargo("", stderr);
    assert_eq!(out, "(no errors or warnings)");
}

#[test]
fn cargo_keeps_errors_and_warnings() {
    let stderr = "   Compiling foo v0.1.0\nerror[E0308]: mismatched types\n --> src/main.rs:5:10\n  |\n5 |     let x: i32 = \"hello\";\n  |                  ^^^^^^^ expected `i32`, found `&str`\nwarning: unused variable `y`\n    Finished dev\n";
    let out = squash_cargo("", stderr);
    assert!(out.contains("error[E0308]"));
    assert!(out.contains("warning: unused variable"));
    assert!(!out.contains("Compiling"));
    assert!(!out.contains("Finished"));
}

#[test]
fn cargo_collapses_passing_tests() {
    let stdout = "running 5 tests\ntest a::foo ... ok\ntest a::bar ... ok\ntest b::baz ... ok\ntest result: ok. 3 passed; 0 failed\n";
    let out = squash_cargo(stdout, "");
    assert!(out.contains("(3 tests passed)"));
    assert!(!out.contains("test a::foo"));
    assert!(out.contains("test result: ok"));
}

#[test]
fn cargo_keeps_failed_tests_inline() {
    let stdout = "running 3 tests\ntest ok_1 ... ok\ntest bad  ... FAILED\ntest ok_2 ... ok\ntest result: FAILED. 2 passed; 1 failed\n";
    let out = squash_cargo(stdout, "");
    assert!(out.contains("FAILED"));
    assert!(out.contains("test result: FAILED"));
    assert!(!out.contains("test ok_1"));
    assert!(!out.contains("test ok_2"));
}

// ── squash dispatch ───────────────────────────────────────────────────────

#[test]
fn dispatch_cargo_build() {
    let (out, err) = squash("cargo build", "", "   Compiling x v0.1\n    Finished dev\n");
    assert_eq!(out, "(no errors or warnings)");
    assert!(err.is_empty());
}

#[test]
fn dispatch_find_caps_entries() {
    let lines: String = (0..150).map(|i| format!("./file{i}.rs\n")).collect();
    let (out, _) = squash("find . -name '*.rs'", &lines, "");
    assert!(out.contains("lines omitted"));
}

#[test]
fn dispatch_grep_caps_matches() {
    let lines: String = (0..120)
        .map(|i| format!("src/foo.rs:{i}: match\n"))
        .collect();
    let (out, _) = squash("grep -r pattern src/", &lines, "");
    assert!(out.contains("lines omitted"));
}

#[test]
fn dispatch_generic_collapses_runs() {
    let text = "same line\nsame line\nsame line\n";
    let (out, _) = squash("echo test", text, "");
    assert!(out.contains("×3"));
}

#[test]
fn dispatch_generic_strips_ansi() {
    let text = "\x1b[32mcoloured\x1b[0m";
    let (out, _) = squash("some_tool", text, "");
    assert_eq!(out.trim(), "coloured");
}

// ── squash integration (shell-level) ─────────────────────────────────────

#[test]
fn squash_cargo_strips_compiling() {
    let stderr = "   Compiling foo v0.1.0\n   Compiling bar v1.2.3\n    Finished dev\n";
    let (out, err) = squash("cargo build", "", stderr);
    assert_eq!(out, "(no errors or warnings)");
    assert!(err.is_empty());
}

#[test]
fn squash_cargo_keeps_errors() {
    let stderr = "   Compiling foo v0.1.0\nerror[E0308]: mismatched types\n --> src/main.rs:5:10\nwarning: unused variable `y`\n    Finished dev\n";
    let (out, _) = squash("cargo build", "", stderr);
    assert!(out.contains("error[E0308]"));
    assert!(out.contains("warning: unused variable"));
    assert!(!out.contains("Compiling"));
}

#[test]
fn squash_cargo_collapses_passing_tests() {
    let stdout = "running 3 tests\ntest foo ... ok\ntest bar ... ok\ntest baz ... FAILED\ntest result: FAILED. 2 passed; 1 failed\n";
    let (out, _) = squash("cargo test", stdout, "");
    assert!(out.contains("(2 tests passed)"));
    assert!(!out.contains("test foo ... ok"));
    assert!(out.contains("FAILED"));
}

#[test]
fn squash_generic_caps_long_output() {
    let text: String = (0..250).map(|i| format!("line {i}\n")).collect();
    let (out, _) = squash("echo", &text, "");
    assert!(out.contains("lines omitted"));
}

// ── helpers of the squashers ─────────────────────────────────────────────

#[test]
fn normalise_collapses_whitespace_and_lowercases() {
    assert_eq!(normalise("  Git   DIFF\tHEAD "), "git diff head");
    assert_eq!(normalise(""), "");
}

#[test]
fn passing_test_lines() {
    assert!(is_passing_test("test a::b ... ok"));
    assert!(is_passing_test("test x ok"));
    assert!(!is_passing_test("test a ... FAILED"));
    assert!(!is_passing_test("tests ok"));
}

#[test]
fn cargo_signal_lines() {
    assert!(is_cargo_signal("error[E0308]: mismatched types"));
    assert!(is_cargo_signal("| let x = 1;"));
    assert!(is_cargo_signal("thread 'main' panicked"));
    assert!(is_cargo_signal("something warning[unused] here"));
    assert!(!is_cargo_signal("Compiling foo v0.1.0"));
    assert!(!is_cargo_signal("Finished dev [unoptimized]"));
}

#[test]
fn git_diff_is_capped_not_collapsed() {
    let (out, err) = squash_git("git diff", "\x1b[31m-a\x1b[0m\n-a\n+b", "");
    assert_eq!(out, "-a\n-a\n+b");
    assert_eq!(err, "");
}

#[test]
fn git_other_subcommands_are_generic() {
    let (out, err) = squash_git("git status", "x\nx\nx", "e\ne");
    assert_eq!(out, "x (×3)");
    assert_eq!(err, "e (×2)");
}

#[test]
fn dispatch_git_normalises_command() {
    let (out, err) = squash("GIT   show", "d1\nd1", "");
    assert_eq!(out, "d1\nd1");
    assert_eq!(err, "");
}

#[test]
fn find_and_grep_strip_and_cap() {
    let lines: Vec<String> = (0..150).map(|i| format!("./f{i}")).collect();
    let out = squash_find(&lines.join("\n"));
    assert_eq!(out.lines().count(), 101);
    assert!(out.ends_with("./f99\n[... 50 lines omitted]"));
    assert_eq!(squash_grep("\x1b[1mm\x1b[0m:1"), "m:1");
}

#[test]
fn generic_collapses_without_stripping() {
    assert_eq!(generic("a\na\nb"), "a (×2)\nb");
    assert_eq!(generic("\x1b[1mx"), "\x1b[1mx");
}

#[test]
fn push_run_marks_repeats() {
    let mut out: Vec<Vec<char>> = Vec::new();
    push_run(&mut out, &"x".chars().collect(), 3);
    push_run(&mut out, &"y".chars().collect(), 1);
    let got: Vec<String> = out.iter().map(|l| l.iter().collect()).collect();
    assert_eq!(got, vec!["x (×3)".to_string(), "y".to_string()]);
}

#[test]
fn cargo_failed_test_line_stays_inline() {
    let stdout = "running 3 tests\ntest ok_1 ... ok\ntest bad  ... FAILED\ntest ok_2 ... ok\ntest result: FAILED. 2 passed; 1 failed\n";
    assert_eq!(
        squash_cargo(stdout, ""),
        "running 3 tests\n(1 tests passed)\ntest bad  ... FAILED\n(1 tests passed)\ntest result: FAILED. 2 passed; 1 failed"
    );
    assert!(is_cargo_signal("test bad  ... FAILED"));
}
