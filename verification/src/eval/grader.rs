//! Grading a finished attempt.  Checks that need the task directory (a file
//! that must exist, a command that must succeed) are observed by the harness
//! and handed in as a `Probe`; everything else is decided here.
use crate::eval::task::{
    spec_default_label, Grader, GraderKind,
};
use crate::text::{
    chars_of, contains, contains_str, debug_quoted, debug_str, decimal, lowercase, lowercase_chars,
    push_decimal, push_str, string_of,
};
use crate::trajectory::{
    Span, SpanModel, TurnRecord,
};
use vstd::prelude::*;

verus! {

/// Outcome of a single grader evaluation.
pub struct GraderResult {
    pub label: String,
    pub passed: bool,
    pub detail: Option<String>,
}

/// A grader result as plain values: label, verdict, detail.
pub open spec fn result_view(r: GraderResult) -> (Seq<char>, bool, Option<Seq<char>>) {
    (r.label@, r.passed, match r.detail {
        Some(d) => Some(d@),
        None => None,
    })
}

/// What the harness observed in the task directory for one grader.
pub enum Probe {
    /// Nothing was needed: the grader reads the trajectory, the response or
    /// the time.
    Nothing,
    /// Whether the grader's path exists.
    Exists(bool),
    /// The file's content, or the text of the error met reading it.
    Read(Result<String, String>),
    /// The command's exit status (whether it succeeded, and its text), or
    /// the text of the error met starting it.
    Shell(Result<(bool, String), String>),
}

/// The observation each kind of grader needs.
pub open spec fn probe_fits(k: GraderKind, p: Probe) -> bool {
    match k {
        GraderKind::FileExists { .. } => p is Exists,
        GraderKind::FileAbsent { .. } => p is Exists,
        GraderKind::FileContains { .. } => p is Read,
        GraderKind::ShellSucceeds { .. } => p is Shell,
        _ => p is Nothing,
    }
}

/// The label reported for a grader: its own, or the default for its kind.
pub open spec fn spec_label(g: Grader) -> Seq<char> {
    match g.label {
        Some(l) => l@,
        None => spec_default_label(g.kind),
    }
}

pub open spec fn is_call_named(s: SpanModel, name: Seq<char>) -> bool {
    match s {
        SpanModel::ToolCall { name: n, .. } => n == name,
        _ => false,
    }
}

/// Some turn of the trajectory holds a call of the named tool.
pub open spec fn spec_tool_was_called(t: Seq<TurnRecord>, name: Seq<char>) -> bool {
    exists|i: int, j: int|
        0 <= i < t.len() && 0 <= j < t[i].spans@.len() && #[trigger] is_call_named(
            t[i].spans@[j]@,
            name,
        )
}

/// Number of tool calls among `s`.
pub open spec fn calls_in(s: Seq<Span>) -> nat
    decreases s.len(),
{
    if s.len() == 0 {
        0
    } else {
        calls_in(s.drop_last()) + if s.last()@ is ToolCall {
            1nat
        } else {
            0nat
        }
    }
}

/// Number of tool calls over all turns of the trajectory.
pub open spec fn spec_count_tool_calls(t: Seq<TurnRecord>) -> nat
    decreases t.len(),
{
    if t.len() == 0 {
        0
    } else {
        spec_count_tool_calls(t.drop_last()) + calls_in(t.last().spans@)
    }
}

/// The outcome of a check: whether it passed, and the detail shown when not.
pub open spec fn verdict(ok: bool, why: Seq<char>) -> (bool, Option<Seq<char>>) {
    (ok, if ok {
        None
    } else {
        Some(why)
    })
}

/// What a grader decides, given what was observed.
pub open spec fn spec_decide(
    k: GraderKind,
    p: Probe,
    t: Seq<TurnRecord>,
    response: Seq<char>,
    duration_ms: u64,
) -> (bool, Option<Seq<char>>) {
    match k {
        GraderKind::FileExists { path } => {
            let exists = p->Exists_0;
            verdict(exists, path@ + " not found"@)
        },
        GraderKind::FileAbsent { path } => {
            let exists = p->Exists_0;
            verdict(!exists, path@ + " exists but should not"@)
        },
        GraderKind::FileContains { path, pattern } => match p->Read_0 {
            Ok(content) => verdict(
                contains(content@, pattern@),
                debug_quoted(path@) + " does not contain "@ + debug_quoted(pattern@),
            ),
            Err(e) => (false, Some("could not read "@ + path@ + ": "@ + e@)),
        },
        GraderKind::ShellSucceeds { .. } => match p->Shell_0 {
            Ok((success, status)) => verdict(success, "exited with "@ + status@),
            Err(e) => (false, Some("failed to run: "@ + e@)),
        },
        GraderKind::ToolCalled { name } => verdict(
            spec_tool_was_called(t, name@),
            name@ + " was not called"@,
        ),
        GraderKind::ToolNotCalled { name } => verdict(
            !spec_tool_was_called(t, name@),
            name@ + " was called but should not have been"@,
        ),
        GraderKind::MaxToolCalls { count } => verdict(
            spec_count_tool_calls(t) <= count,
            decimal(spec_count_tool_calls(t)) + " tool calls > limit "@ + decimal(count as nat),
        ),
        GraderKind::ResponseContains { pattern } => verdict(
            contains(lowercase(response), lowercase(pattern@)),
            "response does not contain "@ + debug_quoted(pattern@),
        ),
        GraderKind::MaxDurationMs { ms } => verdict(
            duration_ms <= ms,
            decimal(duration_ms as nat) + "ms > limit "@ + decimal(ms as nat) + "ms"@,
        ),
    }
}

/// Whether any turn of the trajectory calls the named tool.
pub fn tool_was_called(trajectory: &Vec<TurnRecord>, name: &str) -> (r: bool)
    ensures
        r == spec_tool_was_called(trajectory@, name@),
{
    let target = name.to_string();
    let mut i: usize = 0;
    while i < trajectory.len()
        invariant
            i <= trajectory.len(),
            target@ == name@,
            forall|a: int, b: int|
                0 <= a < i && 0 <= b < trajectory@[a].spans@.len() ==> !#[trigger] is_call_named(
                    trajectory@[a].spans@[b]@,
                    name@,
                ),
        decreases trajectory.len() - i,
    {
        let spans = &trajectory[i].spans;
        let mut j: usize = 0;
        while j < spans.len()
            invariant
                i < trajectory.len(),
                spans == trajectory@[i as int].spans,
                j <= spans.len(),
                target@ == name@,
                forall|b: int| 0 <= b < j ==> !#[trigger] is_call_named(spans@[b]@, name@),
            decreases spans.len() - j,
        {
            match &spans[j] {
                Span::ToolCall { name: n, .. } => {
                    if *n == target {
                        assert(is_call_named(trajectory@[i as int].spans@[j as int]@, name@));
                        return true;
                    }
                },
                _ => {},
            }
            j += 1;
        }
        i += 1;
    }
    false
}

proof fn lemma_calls_in_step(s: Seq<Span>, j: int)
    requires
        0 <= j < s.len(),
    ensures
        calls_in(s.take(j + 1)) == calls_in(s.take(j)) + if s[j]@ is ToolCall {
            1nat
        } else {
            0nat
        },
{
    assert(s.take(j + 1).drop_last() =~= s.take(j));
}

proof fn lemma_count_step(t: Seq<TurnRecord>, i: int)
    requires
        0 <= i < t.len(),
    ensures
        spec_count_tool_calls(t.take(i + 1)) == spec_count_tool_calls(t.take(i)) + calls_in(
            t[i].spans@,
        ),
{
    assert(t.take(i + 1).drop_last() =~= t.take(i));
}

proof fn lemma_count_prefix(t: Seq<TurnRecord>, i: int)
    requires
        0 <= i <= t.len(),
    ensures
        spec_count_tool_calls(t.take(i)) <= spec_count_tool_calls(t),
    decreases t.len() - i,
{
    if i < t.len() {
        lemma_count_step(t, i);
        lemma_count_prefix(t, i + 1);
    } else {
        assert(t.take(i) =~= t);
    }
}

proof fn lemma_calls_prefix(s: Seq<Span>, j: int)
    requires
        0 <= j <= s.len(),
    ensures
        calls_in(s.take(j)) <= calls_in(s),
    decreases s.len() - j,
{
    if j < s.len() {
        lemma_calls_in_step(s, j);
        lemma_calls_prefix(s, j + 1);
    } else {
        assert(s.take(j) =~= s);
    }
}

/// The number of tool calls over the whole trajectory.
pub fn count_tool_calls(trajectory: &Vec<TurnRecord>) -> (r: usize)
    requires
        spec_count_tool_calls(trajectory@) <= usize::MAX,
    ensures
        r == spec_count_tool_calls(trajectory@),
{
    let mut total: usize = 0;
    let mut i: usize = 0;
    assert(trajectory@.take(0) =~= Seq::<TurnRecord>::empty());
    while i < trajectory.len()
        invariant
            i <= trajectory.len(),
            total == spec_count_tool_calls(trajectory@.take(i as int)),
            spec_count_tool_calls(trajectory@) <= usize::MAX,
        decreases trajectory.len() - i,
    {
        let spans = &trajectory[i].spans;
        proof {
            lemma_count_step(trajectory@, i as int);
            lemma_count_prefix(trajectory@, i + 1);
        }
        let mut j: usize = 0;
        let ghost base = total;
        assert(spans@.take(0) =~= Seq::<Span>::empty());
        while j < spans.len()
            invariant
                i < trajectory.len(),
                spans == trajectory@[i as int].spans,
                j <= spans.len(),
                total == base + calls_in(spans@.take(j as int)),
                base + calls_in(spans@) <= usize::MAX,
            decreases spans.len() - j,
        {
            proof {
                lemma_calls_in_step(spans@, j as int);
                lemma_calls_prefix(spans@, j + 1);
            }
            match &spans[j] {
                Span::ToolCall { .. } => {
                    total = total + 1;
                },
                _ => {},
            }
            j += 1;
        }
        assert(spans@.take(j as int) =~= spans@);
        i += 1;
    }
    assert(trajectory@.take(i as int) =~= trajectory@);
    total
}

fn verdict_of(ok: bool, why: Vec<char>) -> (r: (bool, Option<String>))
    ensures
        r.0 == ok,
        r.1 is Some <==> !ok,
        r.1 matches Some(d) ==> d@ == why@,
{
    if ok {
        (true, None)
    } else {
        (false, Some(string_of(&why)))
    }
}

/// Evaluate one grader for a completed attempt: `probe` is what the
/// harness observed for it, `trajectory` the recorded turns, `response` the
/// agent's final text.
pub fn evaluate(
    grader: &Grader,
    probe: &Probe,
    trajectory: &Vec<TurnRecord>,
    response: &str,
    duration_ms: u64,
) -> (r: GraderResult)
    requires
        probe_fits(grader.kind, *probe),
        spec_count_tool_calls(trajectory@) <= usize::MAX,
    ensures
        r.label@ == spec_label(*grader),
        (r.passed, result_view(r).2) == spec_decide(
            grader.kind,
            *probe,
            trajectory@,
            response@,
            duration_ms,
        ),
{
    let label = match &grader.label {
        Some(l) => l.clone(),
        None => grader.kind.default_label(),
    };
    let mut why: Vec<char> = Vec::new();
    let (passed, detail) = match &grader.kind {
        GraderKind::FileExists { path } => {
            let exists = match probe {
                Probe::Exists(e) => *e,
                _ => false,
            };
            push_str(&mut why, path.as_str());
            push_str(&mut why, " not found");
            verdict_of(exists, why)
        },
        GraderKind::FileAbsent { path } => {
            let exists = match probe {
                Probe::Exists(e) => *e,
                _ => false,
            };
            push_str(&mut why, path.as_str());
            push_str(&mut why, " exists but should not");
            verdict_of(!exists, why)
        },
        GraderKind::FileContains { path, pattern } => {
            match probe {
                Probe::Read(Ok(content)) => {
                    let found = contains_str(&chars_of(content.as_str()), pattern.as_str());
                    push_str(&mut why, debug_str(path.as_str()).as_str());
                    push_str(&mut why, " does not contain ");
                    push_str(&mut why, debug_str(pattern.as_str()).as_str());
                    verdict_of(found, why)
                },
                Probe::Read(Err(e)) => {
                    push_str(&mut why, "could not read ");
                    push_str(&mut why, path.as_str());
                    push_str(&mut why, ": ");
                    push_str(&mut why, e.as_str());
                    (false, Some(string_of(&why)))
                },
                _ => (false, None),
            }
        },
        GraderKind::ShellSucceeds { .. } => {
            match probe {
                Probe::Shell(Ok((success, status))) => {
                    push_str(&mut why, "exited with ");
                    push_str(&mut why, status.as_str());
                    verdict_of(*success, why)
                },
                Probe::Shell(Err(e)) => {
                    push_str(&mut why, "failed to run: ");
                    push_str(&mut why, e.as_str());
                    (false, Some(string_of(&why)))
                },
                _ => (false, None),
            }
        },
        GraderKind::ToolCalled { name } => {
            let called = tool_was_called(trajectory, name.as_str());
            push_str(&mut why, name.as_str());
            push_str(&mut why, " was not called");
            verdict_of(called, why)
        },
        GraderKind::ToolNotCalled { name } => {
            let called = tool_was_called(trajectory, name.as_str());
            push_str(&mut why, name.as_str());
            push_str(&mut why, " was called but should not have been");
            verdict_of(!called, why)
        },
        GraderKind::MaxToolCalls { count } => {
            let actual = count_tool_calls(trajectory);
            push_decimal(&mut why, actual as u64);
            push_str(&mut why, " tool calls > limit ");
            push_decimal(&mut why, *count as u64);
            verdict_of(actual <= *count, why)
        },
        GraderKind::ResponseContains { pattern } => {
            let lr = lowercase_chars(&chars_of(response));
            let lp = lowercase_chars(&chars_of(pattern.as_str()));
            let found = crate::text::find_chars(&lr, &lp, 0).is_some();
            proof {
                crate::text::lemma_contains(lr@, lp@);
            }
            push_str(&mut why, "response does not contain ");
            push_str(&mut why, debug_str(pattern.as_str()).as_str());
            verdict_of(found, why)
        },
        GraderKind::MaxDurationMs { ms } => {
            push_decimal(&mut why, duration_ms);
            push_str(&mut why, "ms > limit ");
            push_decimal(&mut why, *ms);
            push_str(&mut why, "ms");
            verdict_of(duration_ms <= *ms, why)
        },
    };
    let r = GraderResult { label, passed, detail };
    assert((r.passed, result_view(r).2) =~= spec_decide(
        grader.kind,
        *probe,
        trajectory@,
        response@,
        duration_ms,
    ));
    r
}

/// Evaluate every grader of a task, in order; `probes[i]` is what was
/// observed for `graders[i]`.
pub fn evaluate_all(
    graders: &Vec<Grader>,
    probes: &Vec<Probe>,
    trajectory: &Vec<TurnRecord>,
    response: &str,
    duration_ms: u64,
) -> (r: Vec<GraderResult>)
    requires
        probes.len() == graders.len(),
        forall|i: int| 0 <= i < graders.len() ==> probe_fits(graders@[i].kind, #[trigger] probes@[i]),
        spec_count_tool_calls(trajectory@) <= usize::MAX,
    ensures
        r.len() == graders.len(),
        forall|i: int|
            0 <= i < r.len() ==> (#[trigger] r@[i]).label@ == spec_label(graders@[i]) && (
            r@[i].passed, result_view(r@[i]).2) == spec_decide(
                graders@[i].kind,
                probes@[i],
                trajectory@,
                response@,
                duration_ms,
            ),
{
    let mut out: Vec<GraderResult> = Vec::new();
    let mut i: usize = 0;
    while i < graders.len()
        invariant
            i <= graders.len(),
            probes.len() == graders.len(),
            forall|k: int| 0 <= k < graders.len() ==> probe_fits(graders@[k].kind, #[trigger] probes@[k]),
            spec_count_tool_calls(trajectory@) <= usize::MAX,
            out.len() == i,
            forall|k: int|
                0 <= k < i ==> (#[trigger] out@[k]).label@ == spec_label(graders@[k]) && (
                out@[k].passed, result_view(out@[k]).2) == spec_decide(
                    graders@[k].kind,
                    probes@[k],
                    trajectory@,
                    response@,
                    duration_ms,
                ),
        decreases graders.len() - i,
    {
        let r = evaluate(&graders[i], &probes[i], trajectory, response, duration_ms);
        out.push(r);
        i += 1;
    }
    out
}

/// `response_contains` ignores case on both sides: responses that differ
/// only in case (the same lowercase form, such as "Done" and "DONE") get the
/// same verdict, and so do patterns that differ only in case; nothing else
/// that was observed (probe, trajectory, duration) matters.
pub proof fn lemma_response_contains_ignores_case(
    pattern1: String,
    pattern2: String,
    r1: Seq<char>,
    r2: Seq<char>,
    p1: Probe,
    p2: Probe,
    t1: Seq<TurnRecord>,
    t2: Seq<TurnRecord>,
    d1: u64,
    d2: u64,
)
    requires
        lowercase(r1) == lowercase(r2),
        lowercase(pattern1@) == lowercase(pattern2@),
    ensures
        spec_decide(GraderKind::ResponseContains { pattern: pattern1 }, p1, t1, r1, d1).0
            == spec_decide(GraderKind::ResponseContains { pattern: pattern2 }, p2, t2, r2, d2).0,
        spec_decide(GraderKind::ResponseContains { pattern: pattern1 }, p1, t1, r1, d1)
            == spec_decide(GraderKind::ResponseContains { pattern: pattern1 }, p2, t2, r2, d2),
{
}

/// A tool is either called or not: of `tool_called` and `tool_not_called`
/// for the same tool, exactly one passes on any trajectory.
pub proof fn lemma_tool_graders_complementary(
    name: String,
    t: Seq<TurnRecord>,
    response: Seq<char>,
    duration_ms: u64,
)
    ensures
        spec_decide(GraderKind::ToolCalled { name }, Probe::Nothing, t, response, duration_ms).0
            != spec_decide(
            GraderKind::ToolNotCalled { name },
            Probe::Nothing,
            t,
            response,
            duration_ms,
        ).0,
{
}

/// Of `file_exists` and `file_absent` for the same path, exactly one passes
/// on any observation of it.
pub proof fn lemma_file_graders_complementary(
    path: String,
    exists: bool,
    t: Seq<TurnRecord>,
    response: Seq<char>,
    duration_ms: u64,
)
    ensures
        spec_decide(GraderKind::FileExists { path }, Probe::Exists(exists), t, response, duration_ms).0
            != spec_decide(
            GraderKind::FileAbsent { path },
            Probe::Exists(exists),
            t,
            response,
            duration_ms,
        ).0,
{
}

} // verus!
