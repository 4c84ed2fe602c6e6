use kapitoshka::eval::grader::{
    count_tool_calls, evaluate, evaluate_all, tool_was_called, GraderResult, Probe,
};
use kapitoshka::eval::report::{attempt_failure_lines, build_report, report_lines, task_lines};
use kapitoshka::eval::runner::{err_attempt, next_run, task_selected, AttemptResult, TaskResult};
use kapitoshka::eval::task::{default_runs, Grader, GraderKind};
use kapitoshka::trajectory::{Span, TurnRecord};

fn grader(kind: GraderKind) -> Grader {
    Grader { label: None, kind }
}

fn call(name: &str) -> Span {
    Span::ToolCall { id: "c".to_string(), name: name.to_string(), input: None }
}

fn turn(spans: Vec<Span>) -> TurnRecord {
    TurnRecord {
        turn: 1,
        timestamp: String::new(),
        user: "q".to_string(),
        spans,
        total_duration_ms: 0,
    }
}

fn result(passed: bool, label: &str, detail: Option<&str>) -> GraderResult {
    GraderResult { label: label.to_string(), passed, detail: detail.map(|d| d.to_string()) }
}

fn attempt(ms: u64, ok: bool, graders: Vec<GraderResult>) -> AttemptResult {
    AttemptResult {
        duration_ms: ms,
        agent_result: if ok { Ok("done".to_string()) } else { Err("no key".to_string()) },
        graders,
    }
}

// ── task ─────────────────────────────────────────────────────────────────

#[test]
fn default_runs_is_one() {
    assert_eq!(default_runs(), 1);
}

#[test]
fn default_labels_name_kind_and_arguments() {
    let p = |s: &str| s.to_string();
    assert_eq!(GraderKind::FileExists { path: p("a.txt") }.default_label(), "file_exists(a.txt)");
    assert_eq!(GraderKind::FileAbsent { path: p("b") }.default_label(), "file_absent(b)");
    assert_eq!(
        GraderKind::FileContains { path: p("a.txt"), pattern: p("x\"y") }.default_label(),
        "file_contains(a.txt, \"x\\\"y\")"
    );
    assert_eq!(
        GraderKind::ShellSucceeds { cmd: p("cargo test") }.default_label(),
        "shell_succeeds(\"cargo test\")"
    );
    assert_eq!(GraderKind::ToolCalled { name: p("read_file") }.default_label(), "tool_called(read_file)");
    assert_eq!(
        GraderKind::ToolNotCalled { name: p("run_shell") }.default_label(),
        "tool_not_called(run_shell)"
    );
    assert_eq!(GraderKind::MaxToolCalls { count: 12 }.default_label(), "max_tool_calls(12)");
    assert_eq!(
        GraderKind::ResponseContains { pattern: p("Done") }.default_label(),
        "response_contains(\"Done\")"
    );
    assert_eq!(GraderKind::MaxDurationMs { ms: 3000 }.default_label(), "max_duration_ms(3000)");
}

// ── grader ───────────────────────────────────────────────────────────────

#[test]
fn file_graders_use_observations() {
    let g = grader(GraderKind::FileExists { path: "out.txt".to_string() });
    let r = evaluate(&g, &Probe::Exists(false), &vec![], "", 0);
    assert!(!r.passed);
    assert_eq!(r.label, "file_exists(out.txt)");
    assert_eq!(r.detail.as_deref(), Some("out.txt not found"));
    let r = evaluate(&g, &Probe::Exists(true), &vec![], "", 0);
    assert!(r.passed);
    assert!(r.detail.is_none());

    let g = grader(GraderKind::FileAbsent { path: "tmp".to_string() });
    let r = evaluate(&g, &Probe::Exists(true), &vec![], "", 0);
    assert_eq!(r.detail.as_deref(), Some("tmp exists but should not"));
}

#[test]
fn file_contains_reports_missing_pattern_and_read_errors() {
    let g = Grader {
        label: Some("greeting".to_string()),
        kind: GraderKind::FileContains { path: "a.txt".to_string(), pattern: "hi".to_string() },
    };
    let r = evaluate(&g, &Probe::Read(Ok("oh hi there".to_string())), &vec![], "", 0);
    assert!(r.passed);
    assert_eq!(r.label, "greeting");
    let r = evaluate(&g, &Probe::Read(Ok("bye".to_string())), &vec![], "", 0);
    assert_eq!(r.detail.as_deref(), Some("\"a.txt\" does not contain \"hi\""));
    let r = evaluate(&g, &Probe::Read(Err("No such file".to_string())), &vec![], "", 0);
    assert!(!r.passed);
    assert_eq!(r.detail.as_deref(), Some("could not read a.txt: No such file"));
}

#[test]
fn shell_grader_reports_status() {
    let g = grader(GraderKind::ShellSucceeds { cmd: "test -f x".to_string() });
    let ok = evaluate(&g, &Probe::Shell(Ok((true, "exit status: 0".to_string()))), &vec![], "", 0);
    assert!(ok.passed);
    let bad = evaluate(&g, &Probe::Shell(Ok((false, "exit status: 1".to_string()))), &vec![], "", 0);
    assert_eq!(bad.detail.as_deref(), Some("exited with exit status: 1"));
    let err = evaluate(&g, &Probe::Shell(Err("no sh".to_string())), &vec![], "", 0);
    assert_eq!(err.detail.as_deref(), Some("failed to run: no sh"));
}

#[test]
fn tool_graders_read_the_trajectory() {
    let t = vec![turn(vec![call("read_file")]), turn(vec![call("write_file"), call("read_file")])];
    assert!(tool_was_called(&t, "write_file"));
    assert!(!tool_was_called(&t, "run_shell"));
    assert_eq!(count_tool_calls(&t), 3);

    let called = grader(GraderKind::ToolCalled { name: "run_shell".to_string() });
    let r = evaluate(&called, &Probe::Nothing, &t, "", 0);
    assert_eq!(r.detail.as_deref(), Some("run_shell was not called"));

    let not_called = grader(GraderKind::ToolNotCalled { name: "read_file".to_string() });
    let r = evaluate(&not_called, &Probe::Nothing, &t, "", 0);
    assert_eq!(r.detail.as_deref(), Some("read_file was called but should not have been"));

    let max = grader(GraderKind::MaxToolCalls { count: 2 });
    let r = evaluate(&max, &Probe::Nothing, &t, "", 0);
    assert_eq!(r.detail.as_deref(), Some("3 tool calls > limit 2"));
}

#[test]
fn response_contains_ignores_case() {
    let g = grader(GraderKind::ResponseContains { pattern: "DONE".to_string() });
    assert!(evaluate(&g, &Probe::Nothing, &vec![], "All done.", 0).passed);
    let r = evaluate(&g, &Probe::Nothing, &vec![], "failed", 0);
    assert_eq!(r.detail.as_deref(), Some("response does not contain \"DONE\""));
}

#[test]
fn duration_grader_compares_milliseconds() {
    let g = grader(GraderKind::MaxDurationMs { ms: 1000 });
    assert!(evaluate(&g, &Probe::Nothing, &vec![], "", 1000).passed);
    let r = evaluate(&g, &Probe::Nothing, &vec![], "", 1500);
    assert_eq!(r.detail.as_deref(), Some("1500ms > limit 1000ms"));
}

#[test]
fn evaluate_all_keeps_grader_order() {
    let gs = vec![
        grader(GraderKind::MaxDurationMs { ms: 10 }),
        grader(GraderKind::FileExists { path: "f".to_string() }),
    ];
    let probes = vec![Probe::Nothing, Probe::Exists(true)];
    let rs = evaluate_all(&gs, &probes, &vec![], "", 20);
    assert_eq!(rs.len(), 2);
    assert!(!rs[0].passed);
    assert!(rs[1].passed);
}

// ── runner ───────────────────────────────────────────────────────────────

#[test]
fn attempt_passes_only_when_agent_and_graders_pass() {
    assert!(attempt(1, true, vec![result(true, "a", None)]).passed());
    assert!(!attempt(1, true, vec![result(true, "a", None), result(false, "b", None)]).passed());
    assert!(!attempt(1, false, vec![]).passed());
    assert!(attempt(1, true, vec![]).passed());
}

#[test]
fn err_attempt_has_no_graders() {
    let a = err_attempt("setup command failed".to_string());
    assert_eq!(a.duration_ms, 0);
    assert_eq!(a.agent_result.as_ref().err().map(|e| e.as_str()), Some("setup command failed"));
    assert!(a.graders.is_empty());
    assert!(!a.passed());
}

#[test]
fn task_result_aggregates_attempts() {
    let r = TaskResult {
        task_id: "t".to_string(),
        runs: 3,
        attempts: vec![attempt(100, true, vec![]), attempt(200, true, vec![result(false, "g", None)]), attempt(301, true, vec![])],
    };
    assert_eq!(r.passes(), 2);
    assert_eq!(r.avg_duration_ms(), 200);
    assert!(!r.all_passed());
    let empty = TaskResult { task_id: "e".to_string(), runs: 1, attempts: vec![] };
    assert_eq!(empty.avg_duration_ms(), 0);
    assert_eq!(empty.passes(), 0);
    assert!(!empty.all_passed());
}

#[test]
fn suite_filter_and_early_stop() {
    assert!(task_selected("create_file", None));
    assert!(task_selected("create_file", Some("file")));
    assert!(!task_selected("create_file", Some("shell")));
    assert!(next_run(&vec![], 2));
    assert!(next_run(&vec![attempt(1, true, vec![])], 2));
    assert!(!next_run(&vec![attempt(1, false, vec![])], 2));
    assert!(!next_run(&vec![attempt(1, true, vec![]), attempt(1, true, vec![])], 2));
}

// ── report ───────────────────────────────────────────────────────────────

#[test]
fn single_run_task_lines() {
    let r = TaskResult {
        task_id: "create_file".to_string(),
        runs: 1,
        attempts: vec![attempt(1234, true, vec![result(true, "a", None), result(false, "file_exists(x)", Some("x not found"))])],
    };
    assert_eq!(
        task_lines(&r),
        vec![
            format!("  ✗ {:<32}  fail  1/2  1234ms", "create_file"),
            "      ✗ file_exists(x): x not found".to_string(),
        ]
    );
}

#[test]
fn multi_run_task_lines() {
    let r = TaskResult {
        task_id: "flaky".to_string(),
        runs: 2,
        attempts: vec![attempt(10, true, vec![]), attempt(30, true, vec![result(false, "g", None)])],
    };
    assert_eq!(
        task_lines(&r),
        vec![
            format!("  ✗ {:<32}  1/2 runs passed  avg 20ms", "flaky"),
            "    run 2:".to_string(),
            "      ✗ g: failed".to_string(),
        ]
    );
}

#[test]
fn errored_task_lines() {
    let r = TaskResult { task_id: "t".to_string(), runs: 3, attempts: vec![attempt(7, false, vec![])] };
    assert_eq!(
        task_lines(&r),
        vec![format!("  ✗ {:<32}  error  7ms", "t"), "      agent error: no key".to_string()]
    );
}

#[test]
fn report_summary_counts_tasks() {
    let pass = TaskResult { task_id: "a".to_string(), runs: 1, attempts: vec![attempt(100, true, vec![])] };
    let fail = TaskResult {
        task_id: "b".to_string(),
        runs: 1,
        attempts: vec![attempt(300, true, vec![result(false, "g", Some("no"))])],
    };
    let lines = report_lines(&vec![pass, fail], "m1", "openai");
    let bar = "═".repeat(64);
    assert_eq!(lines[0], "");
    assert_eq!(lines[1], "  Eval run  model: m1  provider: openai");
    assert_eq!(lines[2], format!("  {bar}"));
    assert_eq!(lines[lines.len() - 2], "  1/2 tasks passed  (50%)    avg 200ms");
    assert_eq!(lines.len(), 4 + 1 + 2 + 4);
    let empty = report_lines(&vec![], "m", "p");
    assert_eq!(empty[empty.len() - 2], "  0/0 tasks passed  (0%)    avg 0ms");
}

#[test]
fn failure_lines_for_agent_error() {
    let mut lines = vec!["head".to_string()];
    attempt_failure_lines(&attempt(5, false, vec![result(false, "g", None)]), &mut lines);
    assert_eq!(lines, vec!["head".to_string(), "      agent error: no key".to_string()]);
}

#[test]
fn failure_lines_list_failing_graders_only() {
    let mut lines = Vec::new();
    let graders = vec![
        result(true, "ok", None),
        result(false, "file exists", Some("missing a.txt")),
        result(false, "shell", None),
    ];
    attempt_failure_lines(&attempt(5, true, graders), &mut lines);
    assert_eq!(
        lines,
        vec!["      ✗ file exists: missing a.txt".to_string(), "      ✗ shell: failed".to_string()]
    );
}

#[test]
fn saved_report_summary_and_records() {
    let results = vec![
        TaskResult {
            task_id: "t1".to_string(),
            runs: 2,
            attempts: vec![attempt(100, true, vec![]), attempt(201, true, vec![])],
        },
        TaskResult {
            task_id: "t2".to_string(),
            runs: 1,
            attempts: vec![attempt(40, false, vec![result(false, "g", Some("why"))])],
        },
    ];
    let report = build_report(&results, "m", "p");
    assert_eq!(report.model, "m");
    assert_eq!(report.provider, "p");
    assert_eq!(report.summary.tasks_total, 2);
    assert_eq!(report.summary.tasks_passed, 1);
    assert_eq!(report.summary.avg_duration_ms, (150 + 40) / 2);
    assert_eq!(report.tasks[0].id, "t1");
    assert_eq!(report.tasks[0].passes, 2);
    assert!(report.tasks[0].all_passed);
    assert_eq!(report.tasks[0].avg_duration_ms, 150);
    assert_eq!(report.tasks[1].attempts[0].agent_error.as_deref(), Some("no key"));
    assert!(!report.tasks[1].attempts[0].passed);
    assert_eq!(report.tasks[1].attempts[0].graders[0].detail.as_deref(), Some("why"));
}

#[test]
fn saved_report_of_no_tasks() {
    let report = build_report(&vec![], "m", "p");
    assert_eq!(report.summary.tasks_total, 0);
    assert_eq!(report.summary.avg_duration_ms, 0);
    assert!(report.tasks.is_empty());
}
