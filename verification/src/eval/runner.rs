//! Attempts and their aggregation.  Running an attempt (temporary
//! directory, setup, the agent itself) is the harness's business; what is
//! decided about attempts is here.
use crate::eval::grader::GraderResult;
use crate::text::contains;
use vstd::prelude::*;

verus! {

/// Result of one attempt at a task.
pub struct AttemptResult {
    pub duration_ms: u64,
    /// The agent's final text, or the text of the error that stopped it.
    pub agent_result: Result<String, String>,
    pub graders: Vec<GraderResult>,
}

/// Every grader of the attempt passed.
pub open spec fn all_graders_passed(g: Seq<GraderResult>) -> bool {
    forall|i: int| 0 <= i < g.len() ==> (#[trigger] g[i]).passed
}

/// The attempt passed: the agent completed and every grader passed.
pub open spec fn spec_passed(a: AttemptResult) -> bool {
    a.agent_result is Ok && all_graders_passed(a.graders@)
}

impl AttemptResult {
    /// The agent completed and every grader passed.
    pub fn passed(&self) -> (r: bool)
        ensures
            r == spec_passed(*self),
    {
        if self.agent_result.is_err() {
            return false;
        }
        let mut i: usize = 0;
        while i < self.graders.len()
            invariant
                i <= self.graders.len(),
                forall|k: int| 0 <= k < i ==> (#[trigger] self.graders@[k]).passed,
            decreases self.graders.len() - i,
        {
            if !self.graders[i].passed {
                return false;
            }
            i += 1;
        }
        true
    }
}

/// An attempt that failed before the agent ran.
pub fn err_attempt(msg: String) -> (r: AttemptResult)
    ensures
        r.duration_ms == 0,
        r.agent_result matches Err(e) && e@ == msg@,
        r.graders@.len() == 0,
{
    AttemptResult { duration_ms: 0, agent_result: Err(msg), graders: Vec::new() }
}

/// Aggregated result across all attempts for a task.
pub struct TaskResult {
    pub task_id: String,
    /// Total runs planned.
    pub runs: usize,
    /// Attempts in order.
    pub attempts: Vec<AttemptResult>,
}

/// Number of passing attempts among `a`.
pub open spec fn spec_passes(a: Seq<AttemptResult>) -> nat
    decreases a.len(),
{
    if a.len() == 0 {
        0
    } else {
        spec_passes(a.drop_last()) + if spec_passed(a.last()) {
            1nat
        } else {
            0nat
        }
    }
}

/// Sum of the attempts' durations.
pub open spec fn duration_sum(a: Seq<AttemptResult>) -> nat
    decreases a.len(),
{
    if a.len() == 0 {
        0
    } else {
        duration_sum(a.drop_last()) + a.last().duration_ms as nat
    }
}

/// Mean duration of the attempts, rounded down; 0 when there are none.
pub open spec fn spec_avg_duration(a: Seq<AttemptResult>) -> nat {
    if a.len() == 0 {
        0
    } else {
        duration_sum(a) / a.len()
    }
}

proof fn lemma_passes_bound(a: Seq<AttemptResult>)
    ensures
        spec_passes(a) <= a.len(),
    decreases a.len(),
{
    if a.len() > 0 {
        lemma_passes_bound(a.drop_last());
    }
}

proof fn lemma_prefix_step(a: Seq<AttemptResult>, i: int)
    requires
        0 <= i < a.len(),
    ensures
        spec_passes(a.take(i + 1)) == spec_passes(a.take(i)) + if spec_passed(a[i]) {
            1nat
        } else {
            0nat
        },
        duration_sum(a.take(i + 1)) == duration_sum(a.take(i)) + a[i].duration_ms,
{
    assert(a.take(i + 1).drop_last() =~= a.take(i));
}

proof fn lemma_duration_prefix(a: Seq<AttemptResult>, i: int)
    requires
        0 <= i <= a.len(),
    ensures
        duration_sum(a.take(i)) <= duration_sum(a),
    decreases a.len() - i,
{
    if i < a.len() {
        lemma_prefix_step(a, i);
        lemma_duration_prefix(a, i + 1);
    } else {
        assert(a.take(i) =~= a);
    }
}

impl TaskResult {
    /// Number of attempts that passed.
    pub fn passes(&self) -> (r: usize)
        ensures
            r == spec_passes(self.attempts@),
    {
        let mut n: usize = 0;
        let mut i: usize = 0;
        assert(self.attempts@.take(0) =~= Seq::<AttemptResult>::empty());
        while i < self.attempts.len()
            invariant
                i <= self.attempts.len(),
                n == spec_passes(self.attempts@.take(i as int)),
            decreases self.attempts.len() - i,
        {
            proof {
                lemma_prefix_step(self.attempts@, i as int);
                lemma_passes_bound(self.attempts@.take(i as int));
            }
            if self.attempts[i].passed() {
                n = n + 1;
            }
            i += 1;
        }
        assert(self.attempts@.take(i as int) =~= self.attempts@);
        n
    }

    /// Mean attempt duration, rounded down (0 without attempts).
    pub fn avg_duration_ms(&self) -> (r: u64)
        requires
            duration_sum(self.attempts@) <= u64::MAX,
        ensures
            r == spec_avg_duration(self.attempts@),
    {
        if self.attempts.len() == 0 {
            return 0;
        }
        let mut sum: u64 = 0;
        let mut i: usize = 0;
        assert(self.attempts@.take(0) =~= Seq::<AttemptResult>::empty());
        while i < self.attempts.len()
            invariant
                i <= self.attempts.len(),
                sum == duration_sum(self.attempts@.take(i as int)),
                duration_sum(self.attempts@) <= u64::MAX,
            decreases self.attempts.len() - i,
        {
            proof {
                lemma_prefix_step(self.attempts@, i as int);
                lemma_duration_prefix(self.attempts@, i + 1);
            }
            sum = sum + self.attempts[i].duration_ms;
            i += 1;
        }
        assert(self.attempts@.take(i as int) =~= self.attempts@);
        sum / (self.attempts.len() as u64)
    }

    /// True only when every planned run passed.
    pub fn all_passed(&self) -> (r: bool)
        ensures
            r == (spec_passes(self.attempts@) == self.runs),
    {
        self.passes() == self.runs
    }
}

/// The task passes as a whole only if it passes in every planned run: with
/// fewer attempts than runs (an early stop), it cannot.
pub proof fn lemma_all_passed_needs_every_run(t: TaskResult)
    requires
        spec_passes(t.attempts@) == t.runs,
    ensures
        t.attempts@.len() >= t.runs,
{
    lemma_passes_bound(t.attempts@);
}

/// The mean duration lies between the shortest and the longest attempt.
pub proof fn lemma_avg_between(a: Seq<AttemptResult>, lo: nat, hi: nat)
    requires
        a.len() > 0,
        forall|i: int| 0 <= i < a.len() ==> lo <= (#[trigger] a[i]).duration_ms <= hi,
    ensures
        lo <= spec_avg_duration(a) <= hi,
{
    lemma_sum_between(a, lo, hi);
    let n = a.len() as int;
    let s = duration_sum(a) as int;
    assert(lo * n <= s <= hi * n);
    assert(lo <= s / n <= hi) by (nonlinear_arith)
        requires
            n > 0,
            lo * n <= s,
            s <= hi * n,
            lo >= 0,
    ;
}

proof fn lemma_sum_between(a: Seq<AttemptResult>, lo: nat, hi: nat)
    requires
        forall|i: int| 0 <= i < a.len() ==> lo <= (#[trigger] a[i]).duration_ms <= hi,
    ensures
        lo * a.len() <= duration_sum(a) <= hi * a.len(),
    decreases a.len(),
{
    if a.len() > 0 {
        let d = a.drop_last();
        assert forall|i: int| 0 <= i < d.len() implies lo <= (#[trigger] d[i]).duration_ms <= hi by {
            assert(d[i] == a[i]);
        }
        lemma_sum_between(d, lo, hi);
        assert(a.last() == a[a.len() - 1]);
        assert(lo * a.len() == lo * d.len() + lo) by (nonlinear_arith)
            requires
                a.len() == d.len() + 1,
        ;
        assert(hi * a.len() == hi * d.len() + hi) by (nonlinear_arith)
            requires
                a.len() == d.len() + 1,
        ;
    }
}

/// Whether the suite runs a task: every task without a filter, otherwise
/// those whose id contains it.
pub fn task_selected(id: &str, filter: Option<&str>) -> (r: bool)
    ensures
        r == match filter {
            None => true,
            Some(f) => contains(id@, f@),
        },
{
    match filter {
        None => true,
        Some(f) => crate::text::contains_str(&crate::text::chars_of(id), f),
    }
}

/// Whether another run of a task follows: fewer than `runs` attempts so far,
/// and the last did not hit an error before grading (retrying won't help
/// then).
pub fn next_run(attempts: &Vec<AttemptResult>, runs: usize) -> (r: bool)
    ensures
        r == (attempts@.len() < runs && (attempts@.len() == 0 || attempts@.last().agent_result is Ok)),
{
    if attempts.len() >= runs {
        return false;
    }
    if attempts.len() == 0 {
        return true;
    }
    attempts[attempts.len() - 1].agent_result.is_ok()
}

} // verus!
