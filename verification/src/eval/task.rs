//! Benchmark tasks, as read from a TOML suite.
use crate::text::{
    debug_quoted, debug_str, decimal, push_decimal, push_str, string_of,
};
use vstd::prelude::*;

verus! {

/// How many times a task runs when its suite does not say.
pub fn default_runs() -> (r: usize)
    ensures
        r == 1,
{
    1
}

/// A single benchmark task.
pub struct Task {
    /// Unique identifier used in reports (e.g. "create_file").
    pub id: String,
    /// One-line description printed in the report header.
    pub description: String,
    /// The prompt sent to the agent verbatim.
    pub prompt: String,
    /// Shell commands run in the task's temp directory before the agent starts.
    pub setup: Vec<String>,
    /// Files to write into the temp directory before the agent starts.
    pub setup_files: Vec<SetupFile>,
    /// Number of runs; the report shows how many of them passed.
    pub runs: usize,
    /// Graders applied after the agent finishes.
    pub graders: Vec<Grader>,
}

/// A file to create in the task working directory before the agent runs.
pub struct SetupFile {
    pub path: String,
    pub content: String,
}

/// One grader applied to a completed task.
pub struct Grader {
    /// Human-readable label printed in the report. Derived from `kind` if absent.
    pub label: Option<String>,
    pub kind: GraderKind,
}

/// What a grader checks.
pub enum GraderKind {
    /// The file exists in the task directory after the agent finishes.
    FileExists { path: String },
    /// The file does NOT exist after the agent finishes.
    FileAbsent { path: String },
    /// The file exists and contains `pattern` as a substring.
    FileContains { path: String, pattern: String },
    /// A shell command exits with code 0 (run in the task directory).
    ShellSucceeds { cmd: String },
    /// The trajectory contains at least one call to the named tool.
    ToolCalled { name: String },
    /// The trajectory contains no call to the named tool.
    ToolNotCalled { name: String },
    /// The total number of tool calls across all spans is at most `count`.
    MaxToolCalls { count: usize },
    /// The agent's final response contains `pattern` as a case-insensitive substring.
    ResponseContains { pattern: String },
    /// The total wall-clock time for the task is at most `ms` milliseconds.
    MaxDurationMs { ms: u64 },
}

/// The label a grader gets when its suite gives none: the kind's name and
/// its arguments, patterns and commands in `Debug` quoting.
pub open spec fn spec_default_label(k: GraderKind) -> Seq<char> {
    match k {
        GraderKind::FileExists { path } => "file_exists("@ + path@ + ")"@,
        GraderKind::FileAbsent { path } => "file_absent("@ + path@ + ")"@,
        GraderKind::FileContains { path, pattern } => "file_contains("@ + path@ + ", "@
            + debug_quoted(pattern@) + ")"@,
        GraderKind::ShellSucceeds { cmd } => "shell_succeeds("@ + debug_quoted(cmd@) + ")"@,
        GraderKind::ToolCalled { name } => "tool_called("@ + name@ + ")"@,
        GraderKind::ToolNotCalled { name } => "tool_not_called("@ + name@ + ")"@,
        GraderKind::MaxToolCalls { count } => "max_tool_calls("@ + decimal(count as nat) + ")"@,
        GraderKind::ResponseContains { pattern } => "response_contains("@ + debug_quoted(
            pattern@,
        ) + ")"@,
        GraderKind::MaxDurationMs { ms } => "max_duration_ms("@ + decimal(ms as nat) + ")"@,
    }
}

impl GraderKind {
    /// The label used in reports when the grader has none of its own.
    pub fn default_label(&self) -> (r: String)
        ensures
            r@ == spec_default_label(*self),
    {
        let mut out: Vec<char> = Vec::new();
        match self {
            GraderKind::FileExists { path } => {
                push_str(&mut out, "file_exists(");
                push_str(&mut out, path.as_str());
            },
            GraderKind::FileAbsent { path } => {
                push_str(&mut out, "file_absent(");
                push_str(&mut out, path.as_str());
            },
            GraderKind::FileContains { path, pattern } => {
                push_str(&mut out, "file_contains(");
                push_str(&mut out, path.as_str());
                push_str(&mut out, ", ");
                push_str(&mut out, debug_str(pattern.as_str()).as_str());
            },
            GraderKind::ShellSucceeds { cmd } => {
                push_str(&mut out, "shell_succeeds(");
                push_str(&mut out, debug_str(cmd.as_str()).as_str());
            },
            GraderKind::ToolCalled { name } => {
                push_str(&mut out, "tool_called(");
                push_str(&mut out, name.as_str());
            },
            GraderKind::ToolNotCalled { name } => {
                push_str(&mut out, "tool_not_called(");
                push_str(&mut out, name.as_str());
            },
            GraderKind::MaxToolCalls { count } => {
                push_str(&mut out, "max_tool_calls(");
                push_decimal(&mut out, *count as u64);
            },
            GraderKind::ResponseContains { pattern } => {
                push_str(&mut out, "response_contains(");
                push_str(&mut out, debug_str(pattern.as_str()).as_str());
            },
            GraderKind::MaxDurationMs { ms } => {
                push_str(&mut out, "max_duration_ms(");
                push_decimal(&mut out, *ms);
            },
        }
        push_str(&mut out, ")");
        assert(out@ =~= spec_default_label(*self));
        string_of(&out)
    }
}

/// Top-level suite document: a list of tasks.
pub struct TaskSuite {
    pub tasks: Vec<Task>,
}

} // verus!
