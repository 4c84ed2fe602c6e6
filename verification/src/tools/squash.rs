//! Compression of shell output before it enters the agent's context window.
use crate::text::{
    chars_of, collapse_ws, contains, contains_str, decimal, ends_with, ends_with_str, eq_chars,
    eq_str, is_alpha, is_ascii_alphabetic, join_parts, join_chars, lead_len, lemma_deep_view_chars,
    lemma_lead_len, lemma_lead_len_step, lines, lowercase, lowercase_chars, collapse_whitespace,
    push_all, push_decimal, push_str, slice_chars, split_lines, split_words, starts_with,
    starts_with_str, string_of, trim_start, trim_start_chars, words,
};
use vstd::prelude::*;

verus! {

/// Line cap applied by the generic and cargo squashers.
pub const MAX_LINES: usize = 200;

/// Line cap for `git diff`, `git show` and `git blame`.
pub const MAX_DIFF_LINES: usize = 300;

/// Line cap for `find` and `ls`.
pub const MAX_FIND_ENTRIES: usize = 100;

/// Line cap for `grep` and its relatives.
pub const MAX_GREP_MATCHES: usize = 100;

// ── Specification ──────────────────────────────────────────────────────────

pub open spec fn not_alpha() -> spec_fn(char) -> bool {
    |c: char| !is_alpha(c)
}

/// What is left of `s` (the text after `ESC [`) once the escape sequence's
/// parameter bytes and its final alphabetic byte are consumed.
pub open spec fn skip_csi(s: Seq<char>) -> Seq<char> {
    let k = lead_len(s, not_alpha());
    if k >= s.len() {
        seq![]
    } else {
        s.skip((k + 1) as int)
    }
}

/// `s` with every `ESC [ ... <letter>` sequence removed.
pub open spec fn spec_strip_ansi(s: Seq<char>) -> Seq<char>
    decreases s.len(),
{
    if s.len() == 0 {
        seq![]
    } else if s.len() >= 2 && s[0] == '\x1b' && s[1] == '[' {
        proof {
            lemma_lead_len(s.skip(2), not_alpha());
        }
        spec_strip_ansi(skip_csi(s.skip(2)))
    } else {
        seq![s[0]] + spec_strip_ansi(s.drop_first())
    }
}

pub open spec fn newline() -> Seq<char> {
    seq!['\n']
}

/// `text` cut to its first `max` lines, with a note of how many were dropped.
pub open spec fn spec_cap_lines(text: Seq<char>, max: nat) -> Seq<char> {
    if text.len() == 0 {
        seq![]
    } else if lines(text).len() <= max {
        text
    } else {
        join_parts(lines(text).take(max as int), newline()) + "\n[... "@ + decimal(
            (lines(text).len() - max) as nat,
        ) + " lines omitted]"@
    }
}

/// Length of the run of copies of `x` at the front of `ls`.
pub open spec fn run_len(ls: Seq<Seq<char>>, x: Seq<char>) -> nat
    decreases ls.len(),
{
    if ls.len() > 0 && ls[0] == x {
        1 + run_len(ls.drop_first(), x)
    } else {
        0
    }
}

/// A run of `n` copies of `line`, as one output line.
pub open spec fn run_line(line: Seq<char>, n: nat) -> Seq<char> {
    if n > 1 {
        line + " (×"@ + decimal(n) + ")"@
    } else {
        line
    }
}

/// Each maximal run of equal adjacent lines, collapsed to one line.
pub open spec fn collapsed(ls: Seq<Seq<char>>) -> Seq<Seq<char>>
    decreases ls.len(),
{
    if ls.len() == 0 {
        seq![]
    } else {
        let n = run_len(ls, ls[0]);
        proof {
            lemma_run_len(ls, ls[0]);
        }
        seq![run_line(ls[0], n)] + collapsed(ls.skip(n as int))
    }
}

pub open spec fn spec_collapse_runs(text: Seq<char>) -> Seq<char> {
    join_parts(collapsed(lines(text)), newline())
}

/// `test name ... ok`: a passing test line (after trimming its indentation).
pub open spec fn spec_is_passing_test(t: Seq<char>) -> bool {
    starts_with(t, "test "@) && (ends_with(t, "... ok"@) || ends_with(t, " ok"@))
}

/// `test name ... FAILED`: a failing test line (after trimming its
/// indentation).
pub open spec fn spec_is_failed_test(t: Seq<char>) -> bool {
    starts_with(t, "test "@) && ends_with(t, "FAILED"@)
}

/// Lines of cargo output that carry a diagnostic or a test verdict; failing
/// test lines stay inline.
pub open spec fn spec_is_cargo_signal(t: Seq<char>) -> bool {
    ||| spec_is_failed_test(t)
    ||| starts_with(t, "error"@)
    ||| starts_with(t, "warning"@)
    ||| starts_with(t, "note"@)
    ||| starts_with(t, "help"@)
    ||| starts_with(t, "-->"@)
    ||| starts_with(t, "|"@)
    ||| starts_with(t, "="@)
    ||| starts_with(t, "thread '"@)
    ||| starts_with(t, "FAILED"@)
    ||| starts_with(t, "test result"@)
    ||| starts_with(t, "failures:"@)
    ||| starts_with(t, "running "@)
    ||| contains(t, "error["@)
    ||| contains(t, "warning["@)
}

pub open spec fn passed_note(n: nat) -> Seq<char> {
    "("@ + decimal(n) + " tests passed)"@
}

pub open spec fn pending_note(pending: nat) -> Seq<Seq<char>> {
    if pending > 0 {
        seq![passed_note(pending)]
    } else {
        seq![]
    }
}

/// The cargo lines that are kept: signal lines in order, each maximal run of
/// passing-test lines replaced by a count; all other lines dropped.
pub open spec fn cargo_kept(ls: Seq<Seq<char>>, pending: nat) -> Seq<Seq<char>>
    decreases ls.len(),
{
    if ls.len() == 0 {
        pending_note(pending)
    } else if spec_is_passing_test(trim_start(ls[0])) {
        cargo_kept(ls.drop_first(), pending + 1)
    } else {
        pending_note(pending) + (if spec_is_cargo_signal(trim_start(ls[0])) {
            seq![ls[0]]
        } else {
            seq![]
        }) + cargo_kept(ls.drop_first(), 0)
    }
}

pub open spec fn spec_squash_cargo(stdout: Seq<char>, stderr: Seq<char>) -> Seq<char> {
    let kept = cargo_kept(lines(spec_strip_ansi(stdout + stderr)), 0);
    if kept.len() == 0 {
        "(no errors or warnings)"@
    } else {
        spec_cap_lines(join_parts(kept, newline()), MAX_LINES as nat)
    }
}

pub open spec fn spec_generic(text: Seq<char>) -> Seq<char> {
    spec_cap_lines(spec_collapse_runs(text), MAX_LINES as nat)
}

/// The `n`-th word of `s`, or the empty string.
pub open spec fn nth_word(s: Seq<char>, n: int) -> Seq<char> {
    if 0 <= n < words(s).len() {
        words(s)[n]
    } else {
        seq![]
    }
}

pub open spec fn spec_squash_git(cmd: Seq<char>, stdout: Seq<char>, stderr: Seq<char>) -> (
    Seq<char>,
    Seq<char>,
) {
    let sub = nth_word(cmd, 1);
    if sub == "diff"@ || sub == "show"@ || sub == "blame"@ {
        (spec_cap_lines(spec_strip_ansi(stdout + stderr), MAX_DIFF_LINES as nat), seq![])
    } else {
        (spec_generic(spec_strip_ansi(stdout)), spec_generic(spec_strip_ansi(stderr)))
    }
}

/// The command with whitespace collapsed and letters lowercased.
pub open spec fn spec_normalise(cmd: Seq<char>) -> Seq<char> {
    lowercase(collapse_ws(cmd))
}

/// The squasher chosen by the first word of an already normalised command.
pub open spec fn spec_squash_normalised(cmd: Seq<char>, stdout: Seq<char>, stderr: Seq<char>) -> (
    Seq<char>,
    Seq<char>,
) {
    let first = nth_word(cmd, 0);
    if first == "cargo"@ {
        (spec_squash_cargo(stdout, stderr), seq![])
    } else if first == "git"@ {
        spec_squash_git(cmd, stdout, stderr)
    } else if first == "find"@ || first == "ls"@ {
        (spec_cap_lines(spec_strip_ansi(stdout + stderr), MAX_FIND_ENTRIES as nat), seq![])
    } else if first == "grep"@ || first == "rg"@ || first == "ag"@ || first == "ripgrep"@ {
        (spec_cap_lines(spec_strip_ansi(stdout + stderr), MAX_GREP_MATCHES as nat), seq![])
    } else {
        (spec_generic(spec_strip_ansi(stdout)), spec_generic(spec_strip_ansi(stderr)))
    }
}

/// A line of cargo output that reports an error: its text, after the
/// indentation, starts with `error`.
pub open spec fn is_error_line(l: Seq<char>) -> bool {
    starts_with(trim_start(l), "error"@)
}

/// Every error line is among the lines kept from cargo's output, in order
/// with the other kept lines.
pub proof fn lemma_cargo_keeps_error_lines(ls: Seq<Seq<char>>, pending: nat, i: int)
    requires
        0 <= i < ls.len(),
        is_error_line(ls[i]),
    ensures
        cargo_kept(ls, pending).contains(ls[i]),
    decreases ls.len(),
{
    reveal_strlit("error");
    reveal_strlit("test ");
    let t0 = trim_start(ls[0]);
    if spec_is_passing_test(t0) {
        if i == 0 {
            assert(t0.subrange(0, 5)[0] == 't');
            assert(t0.subrange(0, 5)[0] == 'e');
        }
        assert(ls.drop_first()[i - 1] == ls[i]);
        lemma_cargo_keeps_error_lines(ls.drop_first(), pending + 1, i - 1);
    } else {
        let a = pending_note(pending);
        let b: Seq<Seq<char>> = if spec_is_cargo_signal(t0) {
            seq![ls[0]]
        } else {
            seq![]
        };
        let c = cargo_kept(ls.drop_first(), 0);
        assert(cargo_kept(ls, pending) == a + b + c);
        if i == 0 {
            assert(spec_is_cargo_signal(t0));
            assert((a + b + c)[a.len() as int] == ls[0]);
        } else {
            assert(ls.drop_first()[i - 1] == ls[i]);
            lemma_cargo_keeps_error_lines(ls.drop_first(), 0, i - 1);
            let k = choose|k: int| 0 <= k < c.len() && c[k] == ls[i];
            assert((a + b + c)[a.len() + b.len() + k] == ls[i]);
        }
    }
}

proof fn lemma_join_has_newline(parts: Seq<Seq<char>>)
    requires
        parts.len() >= 2,
    ensures
        exists|k: int|
            0 <= k < join_parts(parts, newline()).len() && join_parts(parts, newline())[k] == '\n',
{
    let j = join_parts(parts.drop_last(), newline());
    let whole = j + newline() + parts.last();
    assert(join_parts(parts, newline()) == whole);
    assert(whole[j.len() as int] == '\n');
    assert(join_parts(parts, newline())[j.len() as int] == '\n');
}

/// A failed build never reads as clean: when any line of cargo's output
/// (after ANSI codes are stripped) is an error line, the squashed output is
/// not "(no errors or warnings)".
pub proof fn lemma_cargo_errors_never_clean(stdout: Seq<char>, stderr: Seq<char>, i: int)
    requires
        0 <= i < lines(spec_strip_ansi(stdout + stderr)).len(),
        is_error_line(lines(spec_strip_ansi(stdout + stderr))[i]),
    ensures
        spec_squash_cargo(stdout, stderr) != "(no errors or warnings)"@,
{
    reveal_strlit("(no errors or warnings)");
    reveal_strlit("error");
    reveal_strlit("\n[... ");
    let ls = lines(spec_strip_ansi(stdout + stderr));
    let e = ls[i];
    let kept = cargo_kept(ls, 0);
    let clean = "(no errors or warnings)"@;
    lemma_cargo_keeps_error_lines(ls, 0, i);
    let k = choose|k: int| 0 <= k < kept.len() && kept[k] == e;
    let text = join_parts(kept, newline());
    let res = spec_squash_cargo(stdout, stderr);
    assert(forall|m: int| 0 <= m < clean.len() ==> clean[m] != '\n');
    if res == clean {
        assert(kept.len() > 0);
        if text.len() == 0 {
            assert(res.len() == 0);
        } else if lines(text).len() <= MAX_LINES {
            assert(res == text);
            if kept.len() >= 2 {
                lemma_join_has_newline(kept);
            } else {
                assert(k == 0);
                assert(text == e);
                // `(` opens the clean note, so it is its own trimmed text,
                // which does not start with `error`.
                lemma_lead_len(clean, crate::text::ws());
                assert(!crate::text::is_ws(clean[0]));
                assert(lead_len(clean, crate::text::ws()) == 0);
                assert(trim_start(clean) =~= clean);
                assert(trim_start(e).subrange(0, 5)[0] == 'e');
            }
        } else {
            let head = join_parts(lines(text).take(MAX_LINES as int), newline());
            assert(res[head.len() as int] == '\n');
        }
    }
}

/// Text without an escape character passes through `strip_ansi` unchanged.
pub proof fn lemma_strip_ansi_plain(s: Seq<char>)
    requires
        !s.contains('\x1b'),
    ensures
        spec_strip_ansi(s) == s,
    decreases s.len(),
{
    if s.len() > 0 {
        assert(s[0] != '\x1b');
        assert(!s.drop_first().contains('\x1b')) by {
            if s.drop_first().contains('\x1b') {
                let i = choose|i: int| 0 <= i < s.drop_first().len() && s.drop_first()[i] == '\x1b';
                assert(s[i + 1] == '\x1b');
            }
        }
        lemma_strip_ansi_plain(s.drop_first());
        assert(s =~= seq![s[0]] + s.drop_first());
    }
}

pub proof fn lemma_run_len(ls: Seq<Seq<char>>, x: Seq<char>)
    ensures
        run_len(ls, x) <= ls.len(),
        forall|i: int| 0 <= i < run_len(ls, x) ==> #[trigger] ls[i] == x,
        run_len(ls, x) < ls.len() ==> ls[run_len(ls, x) as int] != x,
        ls.len() > 0 && ls[0] == x ==> run_len(ls, x) >= 1,
    decreases ls.len(),
{
    if ls.len() > 0 && ls[0] == x {
        lemma_run_len(ls.drop_first(), x);
        assert forall|i: int| 0 <= i < run_len(ls, x) implies #[trigger] ls[i] == x by {
            if i > 0 {
                assert(ls[i] == ls.drop_first()[i - 1]);
            }
        }
    }
}


// ── Primitives on character buffers ────────────────────────────────────────

fn skip_non_alpha(v: &Vec<char>, from: usize) -> (r: usize)
    requires
        from <= v.len(),
    ensures
        r == from + lead_len(v@.subrange(from as int, v.len() as int), not_alpha()),
        from <= r <= v.len(),
{
    let mut i = from;
    while i < v.len() && !is_ascii_alphabetic(v[i])
        invariant
            from <= i <= v.len(),
            lead_len(v@.subrange(from as int, v.len() as int), not_alpha()) == (i - from)
                + lead_len(v@.subrange(i as int, v.len() as int), not_alpha()),
        decreases v.len() - i,
    {
        proof {
            lemma_lead_len_step(v@, i as int, v.len() as int, not_alpha());
        }
        i += 1;
    }
    proof {
        if i < v.len() {
            lemma_lead_len_step(v@, i as int, v.len() as int, not_alpha());
        }
    }
    i
}

pub fn strip_ansi_chars(v: &Vec<char>) -> (r: Vec<char>)
    ensures
        r@ == spec_strip_ansi(v@),
{
    let mut out: Vec<char> = Vec::new();
    let mut i: usize = 0;
    assert(v@.skip(0) =~= v@);
    while i < v.len()
        invariant
            i <= v.len(),
            spec_strip_ansi(v@) == out@ + spec_strip_ansi(v@.skip(i as int)),
        decreases v.len() - i,
    {
        let ghost rest = v@.skip(i as int);
        if v[i] == '\x1b' && i + 1 < v.len() && v[i + 1] == '[' {
            let j = skip_non_alpha(v, i + 2);
            let ghost body = rest.skip(2);
            assert(body =~= v@.subrange(i + 2, v.len() as int));
            proof {
                lemma_lead_len(body, not_alpha());
            }
            assert(spec_strip_ansi(rest) == spec_strip_ansi(skip_csi(body)));
            if j >= v.len() {
                assert(skip_csi(body) =~= v@.skip(v.len() as int));
                i = v.len();
            } else {
                assert(skip_csi(body) =~= v@.skip(j + 1));
                i = j + 1;
            }
        } else {
            assert(rest.drop_first() =~= v@.skip(i + 1));
            out.push(v[i]);
            assert(spec_strip_ansi(v@) =~= out@ + spec_strip_ansi(v@.skip(i + 1)));
            i += 1;
        }
    }
    assert(v@.skip(i as int) =~= Seq::<char>::empty());
    assert(out@ + spec_strip_ansi(Seq::<char>::empty()) =~= out@);
    out
}

pub fn cap_lines_chars(text: &Vec<char>, max: usize) -> (r: Vec<char>)
    ensures
        r@ == spec_cap_lines(text@, max as nat),
{
    if text.len() == 0 {
        return Vec::new();
    }
    let ls = split_lines(text);
    if ls.len() <= max {
        return slice_chars(text, 0, text.len());
    }
    let mut head: Vec<Vec<char>> = Vec::new();
    let mut i: usize = 0;
    while i < max
        invariant
            i <= max < ls.len(),
            head.deep_view() == ls.deep_view().take(i as int),
        decreases max - i,
    {
        let line = slice_chars(&ls[i], 0, ls[i].len());
        proof {
            lemma_deep_view_chars(&line);
            lemma_deep_view_chars(&ls[i as int]);
            assert(ls[i as int]@.subrange(0, ls[i as int]@.len() as int) =~= ls[i as int]@);
        }
        let ghost dv = head.deep_view();
        head.push(line);
        assert(head.deep_view() =~= dv.push(line@));
        assert(ls.deep_view().take(i + 1) =~= ls.deep_view().take(i as int).push(ls[i as int]@));
        i += 1;
    }
    let nl = vec!['\n'];
    assert(nl@ =~= newline());
    let mut out = join_chars(&head, &nl);
    push_str(&mut out, "\n[... ");
    push_decimal(&mut out, (ls.len() - max) as u64);
    push_str(&mut out, " lines omitted]");
    out
}

/// Appends one collapsed run to `out` (`line`, or `line (×count)`).
pub fn push_run(out: &mut Vec<Vec<char>>, line: &Vec<char>, count: usize)
    ensures
        final(out).deep_view() == old(out).deep_view().push(run_line(line@, count as nat)),
{
    let mut l = slice_chars(line, 0, line.len());
    assert(line@.subrange(0, line@.len() as int) =~= line@);
    if count > 1 {
        push_str(&mut l, " (×");
        push_decimal(&mut l, count as u64);
        push_str(&mut l, ")");
    }
    proof {
        lemma_deep_view_chars(&l);
    }
    let ghost dv = out.deep_view();
    out.push(l);
    assert(out.deep_view() =~= dv.push(l@));
}

pub fn collapse_runs_chars(text: &Vec<char>) -> (r: Vec<char>)
    ensures
        r@ == spec_collapse_runs(text@),
{
    let ls = split_lines(text);
    let ghost all = ls.deep_view();
    let mut out: Vec<Vec<char>> = Vec::new();
    let mut i: usize = 0;
    assert(all.skip(0) =~= all);
    while i < ls.len()
        invariant
            i <= ls.len(),
            all == ls.deep_view(),
            collapsed(all) == out.deep_view() + collapsed(all.skip(i as int)),
        decreases ls.len() - i,
    {
        let ghost rest = all.skip(i as int);
        let mut j = i + 1;
        proof {
            lemma_deep_view_chars(&ls[i as int]);
        }
        assert(rest.skip(1) =~= all.skip(i + 1));
        while j < ls.len() && eq_chars(&ls[j], &ls[i])
            invariant
                i < j <= ls.len(),
                all == ls.deep_view(),
                rest == all.skip(i as int),
                run_len(rest, rest[0]) == (j - i) + run_len(all.skip(j as int), rest[0]),
            decreases ls.len() - j,
        {
            proof {
                lemma_deep_view_chars(&ls[j as int]);
            }
            assert(all.skip(j as int).drop_first() =~= all.skip(j + 1));
            j += 1;
        }
        proof {
            if j < ls.len() {
                lemma_deep_view_chars(&ls[j as int]);
                assert(all.skip(j as int)[0] == all[j as int]);
            } else {
                assert(all.skip(j as int).len() == 0);
            }
            lemma_run_len(rest, rest[0]);
        }
        assert(rest.skip((j - i) as int) =~= all.skip(j as int));
        push_run(&mut out, &ls[i], j - i);
        assert(collapsed(rest) == seq![run_line(rest[0], (j - i) as nat)] + collapsed(
            rest.skip((j - i) as int),
        ));
        assert(collapsed(all) =~= out.deep_view() + collapsed(all.skip(j as int)));
        i = j;
    }
    assert(all.skip(i as int) =~= Seq::<Seq<char>>::empty());
    assert(out.deep_view() + collapsed(Seq::<Seq<char>>::empty()) =~= out.deep_view());
    let nl = vec!['\n'];
    assert(nl@ =~= newline());
    join_chars(&out, &nl)
}


pub fn is_passing_test_chars(t: &Vec<char>) -> (b: bool)
    ensures
        b == spec_is_passing_test(t@),
{
    starts_with_str(t, "test ") && (ends_with_str(t, "... ok") || ends_with_str(t, " ok"))
}

pub fn is_cargo_signal_chars(t: &Vec<char>) -> (b: bool)
    ensures
        b == spec_is_cargo_signal(t@),
{
    (starts_with_str(t, "test ") && ends_with_str(t, "FAILED")) || starts_with_str(t, "error")
        || starts_with_str(t, "warning") || starts_with_str(t, "note")
        || starts_with_str(t, "help") || starts_with_str(t, "-->") || starts_with_str(t, "|")
        || starts_with_str(t, "=") || starts_with_str(t, "thread '") || starts_with_str(
        t,
        "FAILED",
    ) || starts_with_str(t, "test result") || starts_with_str(t, "failures:")
        || starts_with_str(t, "running ") || contains_str(t, "error[") || contains_str(
        t,
        "warning[",
    )
}

fn push_passed_note(out: &mut Vec<Vec<char>>, pending: usize)
    ensures
        final(out).deep_view() == old(out).deep_view() + pending_note(pending as nat),
{
    if pending > 0 {
        let mut note: Vec<char> = Vec::new();
        push_str(&mut note, "(");
        push_decimal(&mut note, pending as u64);
        push_str(&mut note, " tests passed)");
        proof {
            lemma_deep_view_chars(&note);
        }
        let ghost dv = out.deep_view();
        out.push(note);
        assert(out.deep_view() =~= dv + pending_note(pending as nat));
    } else {
        assert(old(out).deep_view() + pending_note(0) =~= old(out).deep_view());
    }
}

pub fn squash_cargo_chars(stdout: &Vec<char>, stderr: &Vec<char>) -> (r: Vec<char>)
    ensures
        r@ == spec_squash_cargo(stdout@, stderr@),
{
    let mut both = slice_chars(stdout, 0, stdout.len());
    assert(stdout@.subrange(0, stdout@.len() as int) =~= stdout@);
    push_all(&mut both, stderr);
    let combined = strip_ansi_chars(&both);
    let ls = split_lines(&combined);
    let ghost all = ls.deep_view();
    let mut out: Vec<Vec<char>> = Vec::new();
    let mut pending: usize = 0;
    let mut i: usize = 0;
    assert(all.skip(0) =~= all);
    while i < ls.len()
        invariant
            i <= ls.len(),
            pending <= i,
            all == ls.deep_view(),
            cargo_kept(all, 0) == out.deep_view() + cargo_kept(all.skip(i as int), pending as nat),
        decreases ls.len() - i,
    {
        let ghost rest = all.skip(i as int);
        proof {
            lemma_deep_view_chars(&ls[i as int]);
        }
        assert(rest.drop_first() =~= all.skip(i + 1));
        assert(rest[0] == ls[i as int]@);
        let t = trim_start_chars(&ls[i]);
        if is_passing_test_chars(&t) {
            pending += 1;
        } else {
            let ghost dv0 = out.deep_view();
            push_passed_note(&mut out, pending);
            let ghost dv1 = out.deep_view();
            if is_cargo_signal_chars(&t) {
                let line = slice_chars(&ls[i], 0, ls[i].len());
                assert(ls[i as int]@.subrange(0, ls[i as int]@.len() as int) =~= ls[i as int]@);
                proof {
                    lemma_deep_view_chars(&line);
                }
                out.push(line);
                assert(out.deep_view() =~= dv1.push(line@));
                assert(out.deep_view() =~= dv0 + pending_note(pending as nat) + seq![rest[0]]);
            } else {
                assert(out.deep_view() =~= dv0 + pending_note(pending as nat) + Seq::<
                    Seq<char>,
                >::empty());
            }
            assert(cargo_kept(all, 0) =~= out.deep_view() + cargo_kept(all.skip(i + 1), 0));
            pending = 0;
        }
        i += 1;
    }
    push_passed_note(&mut out, pending);
    assert(all.skip(i as int) =~= Seq::<Seq<char>>::empty());
    if out.len() == 0 {
        let mut r: Vec<char> = Vec::new();
        push_str(&mut r, "(no errors or warnings)");
        return r;
    }
    let nl = vec!['\n'];
    assert(nl@ =~= newline());
    let joined = join_chars(&out, &nl);
    cap_lines_chars(&joined, MAX_LINES)
}

pub fn generic_chars(text: &Vec<char>) -> (r: Vec<char>)
    ensures
        r@ == spec_generic(text@),
{
    let c = collapse_runs_chars(text);
    cap_lines_chars(&c, MAX_LINES)
}

/// The `n`-th word of `v`, or the empty buffer.
pub fn nth_word_chars(v: &Vec<char>, n: usize) -> (r: Vec<char>)
    ensures
        r@ == nth_word(v@, n as int),
{
    let ws_parts = split_words(v);
    if n < ws_parts.len() {
        proof {
            lemma_deep_view_chars(&ws_parts[n as int]);
        }
        let w = &ws_parts[n];
        let r = slice_chars(w, 0, w.len());
        assert(w@.subrange(0, w@.len() as int) =~= w@);
        r
    } else {
        Vec::new()
    }
}

fn strip_cap(stdout: &Vec<char>, stderr: &Vec<char>, max: usize) -> (r: Vec<char>)
    ensures
        r@ == spec_cap_lines(spec_strip_ansi(stdout@ + stderr@), max as nat),
{
    let mut both = slice_chars(stdout, 0, stdout.len());
    assert(stdout@.subrange(0, stdout@.len() as int) =~= stdout@);
    push_all(&mut both, stderr);
    let s = strip_ansi_chars(&both);
    cap_lines_chars(&s, max)
}

fn generic_pair(stdout: &Vec<char>, stderr: &Vec<char>) -> (r: (Vec<char>, Vec<char>))
    ensures
        r.0@ == spec_generic(spec_strip_ansi(stdout@)),
        r.1@ == spec_generic(spec_strip_ansi(stderr@)),
{
    let a = strip_ansi_chars(stdout);
    let b = strip_ansi_chars(stderr);
    (generic_chars(&a), generic_chars(&b))
}

pub fn squash_git_chars(cmd: &Vec<char>, stdout: &Vec<char>, stderr: &Vec<char>) -> (r: (
    Vec<char>,
    Vec<char>,
))
    ensures
        (r.0@, r.1@) == spec_squash_git(cmd@, stdout@, stderr@),
{
    let sub = nth_word_chars(cmd, 1);
    if eq_str(&sub, "diff") || eq_str(&sub, "show") || eq_str(&sub, "blame") {
        (strip_cap(stdout, stderr, MAX_DIFF_LINES), Vec::new())
    } else {
        generic_pair(stdout, stderr)
    }
}

pub fn squash_normalised_chars(cmd: &Vec<char>, stdout: &Vec<char>, stderr: &Vec<char>) -> (r: (
    Vec<char>,
    Vec<char>,
))
    ensures
        (r.0@, r.1@) == spec_squash_normalised(cmd@, stdout@, stderr@),
{
    let first = nth_word_chars(cmd, 0);
    if eq_str(&first, "cargo") {
        (squash_cargo_chars(stdout, stderr), Vec::new())
    } else if eq_str(&first, "git") {
        squash_git_chars(cmd, stdout, stderr)
    } else if eq_str(&first, "find") || eq_str(&first, "ls") {
        (strip_cap(stdout, stderr, MAX_FIND_ENTRIES), Vec::new())
    } else if eq_str(&first, "grep") || eq_str(&first, "rg") || eq_str(&first, "ag") || eq_str(
        &first,
        "ripgrep",
    ) {
        (strip_cap(stdout, stderr, MAX_GREP_MATCHES), Vec::new())
    } else {
        generic_pair(stdout, stderr)
    }
}


// ── Public interface ───────────────────────────────────────────────────────

/// Squash shell output before it enters the agent's context window.
///
/// The command is normalised (whitespace collapsed, lowercased) and its
/// first word picks the compressor; unrecognised commands get the generic
/// one (ANSI strip, run-length collapse, line cap).
/// Returns `(squashed_stdout, squashed_stderr)`.
pub fn squash(command: &str, stdout: &str, stderr: &str) -> (r: (String, String))
    ensures
        (r.0@, r.1@) == spec_squash_normalised(spec_normalise(command@), stdout@, stderr@),
{
    let cmd = normalise(command);
    squash_normalised(cmd.as_str(), stdout, stderr)
}

/// `squash` for a command that is already normalised.
pub fn squash_normalised(cmd: &str, stdout: &str, stderr: &str) -> (r: (String, String))
    ensures
        (r.0@, r.1@) == spec_squash_normalised(cmd@, stdout@, stderr@),
{
    let c = chars_of(cmd);
    let o = chars_of(stdout);
    let e = chars_of(stderr);
    let (a, b) = squash_normalised_chars(&c, &o, &e);
    (string_of(&a), string_of(&b))
}

/// Cargo: strip progress noise, collapse passing tests, keep signal.
pub fn squash_cargo(stdout: &str, stderr: &str) -> (r: String)
    ensures
        r@ == spec_squash_cargo(stdout@, stderr@),
{
    let o = chars_of(stdout);
    let e = chars_of(stderr);
    string_of(&squash_cargo_chars(&o, &e))
}

pub fn is_passing_test(t: &str) -> (b: bool)
    ensures
        b == spec_is_passing_test(t@),
{
    is_passing_test_chars(&chars_of(t))
}

pub fn is_cargo_signal(t: &str) -> (b: bool)
    ensures
        b == spec_is_cargo_signal(t@),
{
    is_cargo_signal_chars(&chars_of(t))
}

/// Git: diffs get a generous line cap; everything else gets generic treatment.
pub fn squash_git(cmd: &str, stdout: &str, stderr: &str) -> (r: (String, String))
    ensures
        (r.0@, r.1@) == spec_squash_git(cmd@, stdout@, stderr@),
{
    let c = chars_of(cmd);
    let o = chars_of(stdout);
    let e = chars_of(stderr);
    let (a, b) = squash_git_chars(&c, &o, &e);
    (string_of(&a), string_of(&b))
}

/// Find/ls: strip ANSI and cap at `MAX_FIND_ENTRIES`.
pub fn squash_find(text: &str) -> (r: String)
    ensures
        r@ == spec_cap_lines(spec_strip_ansi(text@), MAX_FIND_ENTRIES as nat),
{
    let t = chars_of(text);
    let s = strip_ansi_chars(&t);
    string_of(&cap_lines_chars(&s, MAX_FIND_ENTRIES))
}

/// Grep/rg: strip ANSI and cap at `MAX_GREP_MATCHES`.
pub fn squash_grep(text: &str) -> (r: String)
    ensures
        r@ == spec_cap_lines(spec_strip_ansi(text@), MAX_GREP_MATCHES as nat),
{
    let t = chars_of(text);
    let s = strip_ansi_chars(&t);
    string_of(&cap_lines_chars(&s, MAX_GREP_MATCHES))
}

/// Generic: collapse identical adjacent lines, then cap.
pub fn generic(text: &str) -> (r: String)
    ensures
        r@ == spec_generic(text@),
{
    string_of(&generic_chars(&chars_of(text)))
}

/// Collapse consecutive identical lines into `line (×N)`.
pub fn collapse_runs(text: &str) -> (r: String)
    ensures
        r@ == spec_collapse_runs(text@),
{
    string_of(&collapse_runs_chars(&chars_of(text)))
}

/// Truncate to `max` lines, appending `[... N lines omitted]` when cut.
pub fn cap_lines(text: &str, max: usize) -> (r: String)
    ensures
        r@ == spec_cap_lines(text@, max as nat),
{
    string_of(&cap_lines_chars(&chars_of(text), max))
}

/// Strip ANSI/VT100 escape sequences (e.g. colour codes).
pub fn strip_ansi(text: &str) -> (r: String)
    ensures
        r@ == spec_strip_ansi(text@),
{
    string_of(&strip_ansi_chars(&chars_of(text)))
}

/// Collapse whitespace runs to single spaces and lowercase.
pub fn normalise(cmd: &str) -> (r: String)
    ensures
        r@ == spec_normalise(cmd@),
{
    let c = collapse_whitespace(&chars_of(cmd));
    string_of(&lowercase_chars(&c))
}

/// The two output streams, stdout first.
pub fn join(stdout: &str, stderr: &str) -> (r: String)
    ensures
        r@ == stdout@ + stderr@,
{
    let mut v = chars_of(stdout);
    push_str(&mut v, stderr);
    string_of(&v)
}

} // verus!
