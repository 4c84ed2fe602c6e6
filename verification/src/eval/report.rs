//! The text of the report printed after a suite has run.
use crate::eval::grader::{result_view, GraderResult};
use crate::eval::runner::{
    duration_sum, spec_avg_duration, spec_passed, spec_passes, AttemptResult, TaskResult,
};
use crate::text::{
    chars_of, decimal, push_decimal, push_str, string_of,
};
use vstd::prelude::*;

verus! {

pub open spec fn strings_view(v: Seq<String>) -> Seq<Seq<char>> {
    v.map_values(|s: String| s@)
}

/// `n` spaces.
pub open spec fn spaces(n: nat) -> Seq<char> {
    Seq::new(n, |i: int| ' ')
}

/// `s` left-aligned in a field of 32 characters (`{:<32}`).
pub open spec fn pad32(s: Seq<char>) -> Seq<char> {
    if s.len() < 32 {
        s + spaces((32 - s.len()) as nat)
    } else {
        s
    }
}

/// One line per failing grader: its label and why it failed.
pub open spec fn grader_failures(g: Seq<GraderResult>) -> Seq<Seq<char>>
    decreases g.len(),
{
    if g.len() == 0 {
        seq![]
    } else {
        grader_failures(g.drop_last()) + if g.last().passed {
            seq![]
        } else {
            seq![
                "      ✗ "@ + g.last().label@ + ": "@ + match g.last().detail {
                    Some(d) => d@,
                    None => "failed"@,
                },
            ]
        }
    }
}

/// What is shown of a failed attempt: the agent's error, or the failing
/// graders.
pub open spec fn failure_lines(a: AttemptResult) -> Seq<Seq<char>> {
    match a.agent_result {
        Err(e) => seq!["      agent error: "@ + e@],
        Ok(_) => grader_failures(a.graders@),
    }
}

/// The failing runs of a multi-run task, each under a `run k:` line.
pub open spec fn run_failures(a: Seq<AttemptResult>) -> Seq<Seq<char>>
    decreases a.len(),
{
    if a.len() == 0 {
        seq![]
    } else {
        run_failures(a.drop_last()) + if spec_passed(a.last()) {
            seq![]
        } else {
            seq!["    run "@ + decimal(a.len()) + ":"@] + failure_lines(a.last())
        }
    }
}

/// Number of passing graders.
pub open spec fn graders_passed(g: Seq<GraderResult>) -> nat
    decreases g.len(),
{
    if g.len() == 0 {
        0
    } else {
        graders_passed(g.drop_last()) + if g.last().passed {
            1nat
        } else {
            0nat
        }
    }
}

pub open spec fn icon(ok: bool) -> Seq<char> {
    if ok {
        "✓"@
    } else {
        "✗"@
    }
}

/// The report's lines for one task.
pub open spec fn spec_task_lines(r: TaskResult) -> Seq<Seq<char>> {
    let a = r.attempts@;
    if a.len() > 0 && a[0].agent_result is Err {
        seq![
            "  ✗ "@ + pad32(r.task_id@) + "  error  "@ + decimal(a[0].duration_ms as nat) + "ms"@,
            "      agent error: "@ + a[0].agent_result->Err_0@,
        ]
    } else if r.runs > 1 {
        let passes = spec_passes(a);
        let ok = passes == r.runs;
        seq![
            "  "@ + icon(ok) + " "@ + pad32(r.task_id@) + "  "@ + (if ok {
                "pass"@
            } else {
                decimal(passes) + "/"@ + decimal(r.runs as nat) + " runs passed"@
            }) + "  avg "@ + decimal(spec_avg_duration(a)) + "ms"@,
        ] + run_failures(a)
    } else if a.len() == 0 {
        seq![]
    } else {
        let passed = graders_passed(a[0].graders@);
        let total = a[0].graders@.len();
        let ok = passed == total;
        seq![
            "  "@ + icon(ok) + " "@ + pad32(r.task_id@) + "  "@ + (if ok {
                "pass"@
            } else {
                "fail"@
            }) + "  "@ + decimal(passed) + "/"@ + decimal(total) + "  "@ + decimal(
                a[0].duration_ms as nat,
            ) + "ms"@,
        ] + failure_lines(a[0])
    }
}

fn push_padded(out: &mut Vec<char>, s: &str)
    ensures
        final(out)@ == old(out)@ + pad32(s@),
{
    let v = crate::text::chars_of(s);
    crate::text::push_all(out, &v);
    let mut n: usize = v.len();
    let ghost mid = out@;
    while n < 32
        invariant
            v@ == s@,
            v.len() <= n <= 32 || (n == v.len() && n >= 32),
            out@ == mid + spaces((n - v.len()) as nat),
        decreases 32 - n,
    {
        out.push(' ');
        n += 1;
        assert(out@ =~= mid + spaces((n - v.len()) as nat));
    }
    assert(out@ =~= old(out)@ + pad32(s@));
}

fn push_line(lines: &mut Vec<String>, line: &Vec<char>)
    ensures
        strings_view(final(lines)@) == strings_view(old(lines)@).push(line@),
{
    lines.push(string_of(line));
    assert(strings_view(lines@) =~= strings_view(old(lines)@).push(line@));
}

/// Lines for a failed attempt: the agent's error, or each failing grader.
pub fn attempt_failure_lines(a: &AttemptResult, lines: &mut Vec<String>)
    ensures
        strings_view(final(lines)@) == strings_view(old(lines)@) + failure_lines(*a),
{
    match &a.agent_result {
        Err(e) => {
            let mut l: Vec<char> = Vec::new();
            push_str(&mut l, "      agent error: ");
            push_str(&mut l, e.as_str());
            push_line(lines, &l);
            assert(strings_view(lines@) =~= strings_view(old(lines)@) + failure_lines(*a));
        },
        Ok(_) => {
            let ghost start = strings_view(lines@);
            let mut i: usize = 0;
            assert(a.graders@.take(0) =~= Seq::<GraderResult>::empty());
            while i < a.graders.len()
                invariant
                    i <= a.graders.len(),
                    strings_view(lines@) == start + grader_failures(a.graders@.take(i as int)),
                decreases a.graders.len() - i,
            {
                let g = &a.graders[i];
                assert(a.graders@.take(i + 1).drop_last() =~= a.graders@.take(i as int));
                if !g.passed {
                    let mut l: Vec<char> = Vec::new();
                    push_str(&mut l, "      ✗ ");
                    push_str(&mut l, g.label.as_str());
                    push_str(&mut l, ": ");
                    match &g.detail {
                        Some(d) => push_str(&mut l, d.as_str()),
                        None => push_str(&mut l, "failed"),
                    }
                    push_line(lines, &l);
                }
                i += 1;
                assert(strings_view(lines@) =~= start + grader_failures(a.graders@.take(i as int)));
            }
            assert(a.graders@.take(i as int) =~= a.graders@);
        },
    }
}

fn count_graders_passed(g: &Vec<GraderResult>) -> (r: usize)
    ensures
        r == graders_passed(g@),
        r <= g@.len(),
{
    let mut n: usize = 0;
    let mut i: usize = 0;
    assert(g@.take(0) =~= Seq::<GraderResult>::empty());
    while i < g.len()
        invariant
            i <= g.len(),
            n == graders_passed(g@.take(i as int)),
            n <= i,
        decreases g.len() - i,
    {
        assert(g@.take(i + 1).drop_last() =~= g@.take(i as int));
        if g[i].passed {
            n = n + 1;
        }
        i += 1;
    }
    assert(g@.take(i as int) =~= g@);
    n
}

/// The report's lines for one task (what `print_task` printed).
pub fn task_lines(r: &TaskResult) -> (lines: Vec<String>)
    requires
        r.runs > 1 ==> duration_sum(r.attempts@) <= u64::MAX,
    ensures
        strings_view(lines@) == spec_task_lines(*r),
{
    let mut lines: Vec<String> = Vec::new();
    if r.attempts.len() > 0 {
        match &r.attempts[0].agent_result {
            Err(e) => {
                let mut l: Vec<char> = Vec::new();
                push_str(&mut l, "  ✗ ");
                push_padded(&mut l, r.task_id.as_str());
                push_str(&mut l, "  error  ");
                push_decimal(&mut l, r.attempts[0].duration_ms);
                push_str(&mut l, "ms");
                push_line(&mut lines, &l);
                let mut m: Vec<char> = Vec::new();
                push_str(&mut m, "      agent error: ");
                push_str(&mut m, e.as_str());
                push_line(&mut lines, &m);
                assert(strings_view(lines@) =~= spec_task_lines(*r));
                return lines;
            },
            Ok(_) => {},
        }
    }
    if r.runs > 1 {
        let passes = r.passes();
        let ok = passes == r.runs;
        let mut l: Vec<char> = Vec::new();
        push_str(&mut l, "  ");
        if ok {
            push_str(&mut l, "✓");
        } else {
            push_str(&mut l, "✗");
        }
        push_str(&mut l, " ");
        push_padded(&mut l, r.task_id.as_str());
        push_str(&mut l, "  ");
        if ok {
            push_str(&mut l, "pass");
        } else {
            push_decimal(&mut l, passes as u64);
            push_str(&mut l, "/");
            push_decimal(&mut l, r.runs as u64);
            push_str(&mut l, " runs passed");
        }
        push_str(&mut l, "  avg ");
        push_decimal(&mut l, r.avg_duration_ms());
        push_str(&mut l, "ms");
        assert(l@ =~= "  "@ + icon(ok) + " "@ + pad32(r.task_id@) + "  "@ + (if ok {
            "pass"@
        } else {
            decimal(passes as nat) + "/"@ + decimal(r.runs as nat) + " runs passed"@
        }) + "  avg "@ + decimal(spec_avg_duration(r.attempts@)) + "ms"@);
        push_line(&mut lines, &l);
        let ghost start = strings_view(lines@);
        let mut i: usize = 0;
        assert(r.attempts@.take(0) =~= Seq::<AttemptResult>::empty());
        while i < r.attempts.len()
            invariant
                i <= r.attempts.len(),
                strings_view(lines@) == start + run_failures(r.attempts@.take(i as int)),
            decreases r.attempts.len() - i,
        {
            let a = &r.attempts[i];
            assert(r.attempts@.take(i + 1).drop_last() =~= r.attempts@.take(i as int));
            if !a.passed() {
                let mut h: Vec<char> = Vec::new();
                push_str(&mut h, "    run ");
                push_decimal(&mut h, (i + 1) as u64);
                push_str(&mut h, ":");
                push_line(&mut lines, &h);
                attempt_failure_lines(a, &mut lines);
            }
            i += 1;
            assert(strings_view(lines@) =~= start + run_failures(r.attempts@.take(i as int)));
        }
        assert(r.attempts@.take(i as int) =~= r.attempts@);
        assert(strings_view(lines@) =~= spec_task_lines(*r));
        return lines;
    }
    if r.attempts.len() == 0 {
        assert(strings_view(lines@) =~= spec_task_lines(*r));
        return lines;
    }
    let a = &r.attempts[0];
    let passed = count_graders_passed(&a.graders);
    let total = a.graders.len();
    let ok = passed == total;
    let mut l: Vec<char> = Vec::new();
    push_str(&mut l, "  ");
    if ok {
        push_str(&mut l, "✓");
    } else {
        push_str(&mut l, "✗");
    }
    push_str(&mut l, " ");
    push_padded(&mut l, r.task_id.as_str());
    push_str(&mut l, "  ");
    if ok {
        push_str(&mut l, "pass");
    } else {
        push_str(&mut l, "fail");
    }
    push_str(&mut l, "  ");
    push_decimal(&mut l, passed as u64);
    push_str(&mut l, "/");
    push_decimal(&mut l, total as u64);
    push_str(&mut l, "  ");
    push_decimal(&mut l, a.duration_ms);
    push_str(&mut l, "ms");
    push_line(&mut lines, &l);
    attempt_failure_lines(a, &mut lines);
    assert(strings_view(lines@) =~= spec_task_lines(*r));
    lines
}

/// The lines of every task, in order.
pub open spec fn all_task_lines(rs: Seq<TaskResult>) -> Seq<Seq<char>>
    decreases rs.len(),
{
    if rs.len() == 0 {
        seq![]
    } else {
        all_task_lines(rs.drop_last()) + spec_task_lines(rs.last())
    }
}

/// Number of tasks that passed in every run.
pub open spec fn tasks_passed(rs: Seq<TaskResult>) -> nat
    decreases rs.len(),
{
    if rs.len() == 0 {
        0
    } else {
        tasks_passed(rs.drop_last()) + if spec_passes(rs.last().attempts@) == rs.last().runs {
            1nat
        } else {
            0nat
        }
    }
}

/// Sum of the tasks' mean durations.
pub open spec fn avg_sum(rs: Seq<TaskResult>) -> nat
    decreases rs.len(),
{
    if rs.len() == 0 {
        0
    } else {
        avg_sum(rs.drop_last()) + spec_avg_duration(rs.last().attempts@)
    }
}

/// Every task's durations fit in a `u64`, and so does the sum of the means.
pub open spec fn durations_fit(rs: Seq<TaskResult>) -> bool {
    &&& forall|i: int| 0 <= i < rs.len() ==> duration_sum((#[trigger] rs[i]).attempts@) <= u64::MAX
    &&& avg_sum(rs) <= u64::MAX
}

/// The report: a header naming the model and provider, each task's lines,
/// and a summary of passed tasks, their share in percent and the mean
/// duration.
pub open spec fn spec_report_lines(rs: Seq<TaskResult>, model: Seq<char>, provider: Seq<char>) -> Seq<
    Seq<char>,
> {
    let bar = Seq::new(64, |i: int| '═');
    let p = tasks_passed(rs);
    let t = rs.len();
    let pct: nat = if t == 0 {
        0
    } else {
        p * 100 / t
    };
    let avg: nat = if t == 0 {
        0
    } else {
        avg_sum(rs) / t
    };
    seq![""@, "  Eval run  model: "@ + model + "  provider: "@ + provider, "  "@ + bar, ""@]
        + all_task_lines(rs) + seq![
        ""@,
        "  "@ + bar,
        "  "@ + decimal(p) + "/"@ + decimal(t) + " tasks passed  ("@ + decimal(pct) + "%)    avg "@
            + decimal(avg) + "ms"@,
        ""@,
    ]
}

proof fn lemma_tasks_passed_bound(rs: Seq<TaskResult>)
    ensures
        tasks_passed(rs) <= rs.len(),
    decreases rs.len(),
{
    if rs.len() > 0 {
        lemma_tasks_passed_bound(rs.drop_last());
    }
}

proof fn lemma_avg_sum_prefix(rs: Seq<TaskResult>, i: int)
    requires
        0 <= i <= rs.len(),
    ensures
        avg_sum(rs.take(i)) <= avg_sum(rs),
    decreases rs.len() - i,
{
    if i < rs.len() {
        assert(rs.take(i + 1).drop_last() =~= rs.take(i));
        lemma_avg_sum_prefix(rs, i + 1);
    } else {
        assert(rs.take(i) =~= rs);
    }
}

/// The task passed in every one of its planned runs (`all_passed`).
pub open spec fn passed_every_run(r: TaskResult) -> bool {
    spec_passes(r.attempts@) == r.runs
}

/// The summary counts exactly the tasks that passed every planned run: its
/// number of passed tasks is the number of such tasks among the results.
pub proof fn lemma_tasks_passed_counts_full_passes(rs: Seq<TaskResult>)
    ensures
        tasks_passed(rs) == rs.filter(|r: TaskResult| passed_every_run(r)).len(),
    decreases rs.len(),
{
    reveal(Seq::filter);
    if rs.len() > 0 {
        lemma_tasks_passed_counts_full_passes(rs.drop_last());
    }
}

proof fn lemma_failing_attempt_lowers_passes(a: Seq<AttemptResult>, k: int)
    requires
        0 <= k < a.len(),
        !spec_passed(a[k]),
    ensures
        spec_passes(a) < a.len(),
    decreases a.len(),
{
    lemma_passes_at_most(a.drop_last());
    if k < a.len() - 1 {
        assert(a.drop_last()[k] == a[k]);
        lemma_failing_attempt_lowers_passes(a.drop_last(), k);
    }
}

proof fn lemma_passes_at_most(a: Seq<AttemptResult>)
    ensures
        spec_passes(a) <= a.len(),
    decreases a.len(),
{
    if a.len() > 0 {
        lemma_passes_at_most(a.drop_last());
    }
}

/// A task with a failed run (and no more attempts than planned runs) is
/// never counted as passed: adding it to the results leaves the number of
/// passed tasks unchanged, while adding a task that passed every run adds
/// one.
pub proof fn lemma_failed_run_not_counted(rs: Seq<TaskResult>, t: TaskResult)
    ensures
        (exists|k: int| 0 <= k < t.attempts@.len() && !spec_passed(#[trigger] t.attempts@[k]))
            && t.attempts@.len() <= t.runs ==> tasks_passed(rs.push(t)) == tasks_passed(rs),
        passed_every_run(t) ==> tasks_passed(rs.push(t)) == tasks_passed(rs) + 1,
{
    assert(rs.push(t).drop_last() =~= rs);
    if exists|k: int| 0 <= k < t.attempts@.len() && !spec_passed(#[trigger] t.attempts@[k]) {
        let k = choose|k: int| 0 <= k < t.attempts@.len() && !spec_passed(#[trigger] t.attempts@[k]);
        lemma_failing_attempt_lowers_passes(t.attempts@, k);
    }
}

/// The pass rate in the summary never exceeds 100%.
pub proof fn lemma_pass_rate_at_most_100(rs: Seq<TaskResult>)
    requires
        rs.len() > 0,
    ensures
        tasks_passed(rs) * 100 / rs.len() <= 100,
{
    lemma_tasks_passed_bound(rs);
    let p = tasks_passed(rs) as int;
    let t = rs.len() as int;
    assert(p * 100 / t <= 100) by (nonlinear_arith)
        requires
            0 <= p <= t,
            t > 0,
    ;
}

fn push_bar(out: &mut Vec<char>)
    ensures
        final(out)@ == old(out)@ + Seq::new(64, |i: int| '═'),
{
    let mut n: usize = 0;
    while n < 64
        invariant
            n <= 64,
            out@ == old(out)@ + Seq::new(n as nat, |i: int| '═'),
        decreases 64 - n,
    {
        out.push('═');
        n += 1;
        assert(out@ =~= old(out)@ + Seq::new(n as nat, |i: int| '═'));
    }
}

/// The whole report printed after a suite (what `print_report` printed),
/// one string per line.
pub fn report_lines(results: &Vec<TaskResult>, model: &str, provider: &str) -> (lines: Vec<String>)
    requires
        durations_fit(results@),
        tasks_passed(results@) * 100 <= usize::MAX,
    ensures
        strings_view(lines@) == spec_report_lines(results@, model@, provider@),
{
    let mut lines: Vec<String> = Vec::new();
    let empty: Vec<char> = Vec::new();
    push_line(&mut lines, &empty);
    let mut h: Vec<char> = Vec::new();
    push_str(&mut h, "  Eval run  model: ");
    push_str(&mut h, model);
    push_str(&mut h, "  provider: ");
    push_str(&mut h, provider);
    push_line(&mut lines, &h);
    let mut b: Vec<char> = Vec::new();
    push_str(&mut b, "  ");
    push_bar(&mut b);
    push_line(&mut lines, &b);
    push_line(&mut lines, &empty);
    let ghost head = strings_view(lines@);
    let mut passed: usize = 0;
    let mut sum: u64 = 0;
    let mut i: usize = 0;
    assert(results@.take(0) =~= Seq::<TaskResult>::empty());
    while i < results.len()
        invariant
            i <= results.len(),
            durations_fit(results@),
            strings_view(lines@) == head + all_task_lines(results@.take(i as int)),
            passed == tasks_passed(results@.take(i as int)),
            passed <= i,
            sum == avg_sum(results@.take(i as int)),
        decreases results.len() - i,
    {
        let r = &results[i];
        assert(results@.take(i + 1).drop_last() =~= results@.take(i as int));
        proof {
            lemma_avg_sum_prefix(results@, i + 1);
        }
        assert(duration_sum(results@[i as int].attempts@) <= u64::MAX);
        let tl = task_lines(r);
        let ghost before = strings_view(lines@);
        let mut j: usize = 0;
        while j < tl.len()
            invariant
                j <= tl.len(),
                strings_view(lines@) == before + strings_view(tl@).take(j as int),
            decreases tl.len() - j,
        {
            let ghost prev = strings_view(lines@);
            lines.push(tl[j].clone());
            assert(strings_view(lines@) =~= prev.push(tl@[j as int]@));
            assert(strings_view(tl@).take(j + 1) =~= strings_view(tl@).take(j as int).push(tl@[j as int]@));
            j += 1;
        }
        assert(strings_view(tl@).take(j as int) =~= strings_view(tl@));
        if r.all_passed() {
            passed = passed + 1;
        }
        sum = sum + r.avg_duration_ms();
        i += 1;
        assert(strings_view(lines@) =~= head + all_task_lines(results@.take(i as int)));
    }
    assert(results@.take(i as int) =~= results@);
    let total = results.len();
    let pct: usize = if total == 0 {
        0
    } else {
        passed * 100 / total
    };
    let avg: u64 = if total == 0 {
        0
    } else {
        sum / (total as u64)
    };
    push_line(&mut lines, &empty);
    push_line(&mut lines, &b);
    let mut s: Vec<char> = Vec::new();
    push_str(&mut s, "  ");
    push_decimal(&mut s, passed as u64);
    push_str(&mut s, "/");
    push_decimal(&mut s, total as u64);
    push_str(&mut s, " tasks passed  (");
    push_decimal(&mut s, pct as u64);
    push_str(&mut s, "%)    avg ");
    push_decimal(&mut s, avg);
    push_str(&mut s, "ms");
    push_line(&mut lines, &s);
    push_line(&mut lines, &empty);
    assert(s@ =~= "  "@ + decimal(tasks_passed(results@)) + "/"@ + decimal(results@.len())
        + " tasks passed  ("@ + decimal(if total == 0 { 0 } else { tasks_passed(results@) * 100 / results@.len() })
        + "%)    avg "@ + decimal(if total == 0 { 0 } else { avg_sum(results@) / results@.len() }) + "ms"@);
    proof {
        reveal_strlit("");
    }
    assert(empty@ =~= ""@);
    assert(head =~= seq![""@, "  Eval run  model: "@ + model@ + "  provider: "@ + provider@, "  "@ + Seq::new(64, |i: int| '═'), ""@]);
    assert(strings_view(lines@) =~= spec_report_lines(results@, model@, provider@));
    lines
}

// ── The saved report ───────────────────────────────────────────────────────

/// One attempt as the saved report records it.
pub struct AttemptReport {
    pub passed: bool,
    pub duration_ms: u64,
    pub agent_error: Option<String>,
    pub graders: Vec<GraderResult>,
}

/// One task as the saved report records it.
pub struct TaskReport {
    pub id: String,
    pub runs: usize,
    pub passes: usize,
    pub all_passed: bool,
    pub avg_duration_ms: u64,
    pub attempts: Vec<AttemptReport>,
}

/// The totals of the saved report.
pub struct ReportSummary {
    pub tasks_total: usize,
    pub tasks_passed: usize,
    pub avg_duration_ms: u64,
}

/// The saved report, but for the time it was written.
pub struct Report {
    pub model: String,
    pub provider: String,
    pub summary: ReportSummary,
    pub tasks: Vec<TaskReport>,
}

pub open spec fn opt_string_view(o: Option<String>) -> Option<Seq<char>> {
    match o {
        Some(s) => Some(s@),
        None => None,
    }
}

/// `r` records the attempt `a`: its verdict, duration, the agent's error
/// if it failed, and its graders' results.
pub open spec fn attempt_reported(r: AttemptReport, a: AttemptResult) -> bool {
    &&& r.passed == spec_passed(a)
    &&& r.duration_ms == a.duration_ms
    &&& opt_string_view(r.agent_error) == match a.agent_result {
        Err(e) => Some(e@),
        Ok(_) => None::<Seq<char>>,
    }
    &&& r.graders@.len() == a.graders@.len()
    &&& forall|k: int|
        0 <= k < a.graders@.len() ==> result_view(#[trigger] r.graders@[k]) == result_view(
            a.graders@[k],
        )
}

/// `r` records the task `t`: its id, planned runs, passing runs, whether
/// every run passed, the mean duration and each attempt in order.
pub open spec fn task_reported(r: TaskReport, t: TaskResult) -> bool {
    &&& r.id@ == t.task_id@
    &&& r.runs == t.runs
    &&& r.passes == spec_passes(t.attempts@)
    &&& r.all_passed == (spec_passes(t.attempts@) == t.runs)
    &&& r.avg_duration_ms == spec_avg_duration(t.attempts@)
    &&& r.attempts@.len() == t.attempts@.len()
    &&& forall|k: int|
        0 <= k < t.attempts@.len() ==> attempt_reported(#[trigger] r.attempts@[k], t.attempts@[k])
}

fn copy_grader_result(g: &GraderResult) -> (r: GraderResult)
    ensures
        result_view(r) == result_view(*g),
{
    GraderResult {
        label: string_of(&chars_of(g.label.as_str())),
        passed: g.passed,
        detail: match &g.detail {
            Some(d) => Some(string_of(&chars_of(d.as_str()))),
            None => None,
        },
    }
}

/// The saved record of one attempt.
pub fn attempt_report(a: &AttemptResult) -> (r: AttemptReport)
    ensures
        attempt_reported(r, *a),
{
    let mut graders: Vec<GraderResult> = Vec::new();
    let mut k: usize = 0;
    while k < a.graders.len()
        invariant
            k <= a.graders.len(),
            graders@.len() == k,
            forall|j: int| 0 <= j < k ==> result_view(#[trigger] graders@[j]) == result_view(
                a.graders@[j],
            ),
        decreases a.graders.len() - k,
    {
        graders.push(copy_grader_result(&a.graders[k]));
        k += 1;
    }
    let agent_error = match &a.agent_result {
        Err(e) => Some(string_of(&chars_of(e.as_str()))),
        Ok(_) => None,
    };
    AttemptReport { passed: a.passed(), duration_ms: a.duration_ms, agent_error, graders }
}

/// The saved record of one task.
pub fn task_report(t: &TaskResult) -> (r: TaskReport)
    requires
        duration_sum(t.attempts@) <= u64::MAX,
    ensures
        task_reported(r, *t),
{
    let mut attempts: Vec<AttemptReport> = Vec::new();
    let mut k: usize = 0;
    while k < t.attempts.len()
        invariant
            k <= t.attempts.len(),
            attempts@.len() == k,
            forall|j: int| 0 <= j < k ==> attempt_reported(#[trigger] attempts@[j], t.attempts@[j]),
        decreases t.attempts.len() - k,
    {
        attempts.push(attempt_report(&t.attempts[k]));
        k += 1;
    }
    TaskReport {
        id: string_of(&chars_of(t.task_id.as_str())),
        runs: t.runs,
        passes: t.passes(),
        all_passed: t.all_passed(),
        avg_duration_ms: t.avg_duration_ms(),
        attempts,
    }
}

/// The report saved after a suite: model and provider, the number of tasks,
/// how many passed in every run, the mean of the tasks' mean durations
/// (rounded down, 0 without tasks), and each task's record in order.
pub fn build_report(results: &Vec<TaskResult>, model: &str, provider: &str) -> (r: Report)
    requires
        durations_fit(results@),
    ensures
        r.model@ == model@,
        r.provider@ == provider@,
        r.summary.tasks_total == results@.len(),
        r.summary.tasks_passed == tasks_passed(results@),
        r.summary.avg_duration_ms == (if results@.len() == 0 {
            0
        } else {
            avg_sum(results@) / results@.len()
        }),
        r.tasks@.len() == results@.len(),
        forall|i: int|
            0 <= i < results@.len() ==> task_reported(#[trigger] r.tasks@[i], results@[i]),
{
    let mut tasks: Vec<TaskReport> = Vec::new();
    let mut passed: usize = 0;
    let mut sum: u64 = 0;
    let mut i: usize = 0;
    assert(results@.take(0) =~= Seq::<TaskResult>::empty());
    while i < results.len()
        invariant
            i <= results.len(),
            durations_fit(results@),
            tasks@.len() == i,
            forall|j: int| 0 <= j < i ==> task_reported(#[trigger] tasks@[j], results@[j]),
            passed == tasks_passed(results@.take(i as int)),
            passed <= i,
            sum == avg_sum(results@.take(i as int)),
        decreases results.len() - i,
    {
        let r = &results[i];
        assert(results@.take(i + 1).drop_last() =~= results@.take(i as int));
        proof {
            lemma_avg_sum_prefix(results@, i + 1);
        }
        assert(duration_sum(results@[i as int].attempts@) <= u64::MAX);
        tasks.push(task_report(r));
        if r.all_passed() {
            passed = passed + 1;
        }
        sum = sum + r.avg_duration_ms();
        i += 1;
    }
    assert(results@.take(i as int) =~= results@);
    let total = results.len();
    let avg: u64 = if total == 0 {
        0
    } else {
        sum / (total as u64)
    };
    Report {
        model: string_of(&chars_of(model)),
        provider: string_of(&chars_of(provider)),
        summary: ReportSummary { tasks_total: total, tasks_passed: passed, avg_duration_ms: avg },
        tasks,
    }
}

} // verus!
