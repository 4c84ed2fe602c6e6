//! What the terminal shows: the text of status lines and lists, and the
//! colours of the banner animation.  Writing to the terminal is done by the
//! program.
use crate::text::{
    chars_of, decimal, push_decimal, push_str, string_of,
};
use crate::tools::todo::{
    TodoItem, TodoStatus,
};
use vstd::prelude::*;

verus! {

/// A terminal colour used by the banner.
#[derive(Clone, Copy, PartialEq, Eq, Structural)]
pub enum Tint {
    DarkGrey,
    Blue,
    Cyan,
    White,
    /// The outline colour, RGB (64, 180, 255).
    Outline,
}

/// The colour of a banner character in frame `frame_idx`: rain drops grey,
/// blue or (in even frames) cyan, the outline light blue, eyes cyan, the
/// smile and the drop's tip white; other characters have none.
pub open spec fn spec_color_for_char(ch: char, frame_idx: nat) -> Option<Tint> {
    if ch == '·' {
        Some(Tint::DarkGrey)
    } else if ch == '∘' {
        Some(Tint::Blue)
    } else if ch == '○' {
        Some(if frame_idx % 2 == 0 { Tint::Cyan } else { Tint::Blue })
    } else if ch == '/' || ch == '\\' || ch == '|' || ch == '_' {
        Some(Tint::Outline)
    } else if ch == 'V' {
        Some(Tint::Blue)
    } else if ch == '.' {
        Some(Tint::White)
    } else if ch == '◕' {
        Some(Tint::Cyan)
    } else if ch == '‿' {
        Some(Tint::White)
    } else {
        None
    }
}

/// The colour of a banner character.
pub fn color_for_char(ch: char, frame_idx: usize) -> (r: Option<Tint>)
    ensures
        r == spec_color_for_char(ch, frame_idx as nat),
{
    if ch == '·' {
        Some(Tint::DarkGrey)
    } else if ch == '∘' {
        Some(Tint::Blue)
    } else if ch == '○' {
        Some(
            if frame_idx % 2 == 0 {
                Tint::Cyan
            } else {
                Tint::Blue
            },
        )
    } else if ch == '/' || ch == '\\' || ch == '|' || ch == '_' {
        Some(Tint::Outline)
    } else if ch == 'V' {
        Some(Tint::Blue)
    } else if ch == '.' {
        Some(Tint::White)
    } else if ch == '◕' {
        Some(Tint::Cyan)
    } else if ch == '‿' {
        Some(Tint::White)
    } else {
        None
    }
}

/// How a banner character is drawn.
#[derive(PartialEq, Eq, Structural)]
pub enum Paint {
    /// In its own colour, reset after it.
    Colored(Tint),
    /// In cyan, left set: the label under the last frame.
    Label,
    /// As it is.
    Plain,
}

/// How a character of frame `frame_idx` is drawn; `last` says whether the
/// frame is the final one, whose uncoloured characters form the label.
pub fn char_paint(ch: char, frame_idx: usize, last: bool) -> (r: Paint)
    ensures
        r == match spec_color_for_char(ch, frame_idx as nat) {
            Some(t) => Paint::Colored(t),
            None => if last {
                Paint::Label
            } else {
                Paint::Plain
            },
        },
{
    match color_for_char(ch, frame_idx) {
        Some(t) => Paint::Colored(t),
        None => if last {
            Paint::Label
        } else {
            Paint::Plain
        },
    }
}

/// The token statistics line after a turn: the compaction note when the
/// history was compacted, the session totals, cached and reasoning tokens
/// when there are any, and the context fill when the context size is known.
pub open spec fn spec_context_stats(
    input_tokens: u64,
    output_tokens: u64,
    total_tokens: u64,
    cached: u64,
    reasoning: u64,
    last_input_tokens: u64,
    context_size: u64,
    compacted: bool,
) -> Seq<char> {
    (if compacted {
        "  ✂ history compacted\n"@
    } else {
        seq![]
    }) + "  ctx  in:"@ + decimal(input_tokens as nat) + "  out:"@ + decimal(output_tokens as nat)
        + "  total:"@ + decimal(total_tokens as nat) + (if cached > 0 {
        "  cached:"@ + decimal(cached as nat)
    } else {
        seq![]
    }) + (if reasoning > 0 {
        "  think:"@ + decimal(reasoning as nat)
    } else {
        seq![]
    }) + (if context_size > 0 && last_input_tokens > 0 {
        "  "@ + decimal(((last_input_tokens as nat) * 100 / (context_size as nat)) as nat) + "% of "@ + decimal(
            (context_size / 1000) as nat,
        ) + "k"@
    } else {
        seq![]
    })
}

/// The statistics line (without its final newline).
pub fn context_stats_text(
    input_tokens: u64,
    output_tokens: u64,
    total_tokens: u64,
    cached: u64,
    reasoning: u64,
    last_input_tokens: u64,
    context_size: u64,
    compacted: bool,
) -> (r: String)
    requires
        context_size > 0 ==> last_input_tokens * 100 <= u64::MAX,
    ensures
        r@ == spec_context_stats(
            input_tokens,
            output_tokens,
            total_tokens,
            cached,
            reasoning,
            last_input_tokens,
            context_size,
            compacted,
        ),
{
    let mut out: Vec<char> = Vec::new();
    if compacted {
        push_str(&mut out, "  ✂ history compacted\n");
    }
    push_str(&mut out, "  ctx  in:");
    push_decimal(&mut out, input_tokens);
    push_str(&mut out, "  out:");
    push_decimal(&mut out, output_tokens);
    push_str(&mut out, "  total:");
    push_decimal(&mut out, total_tokens);
    if cached > 0 {
        push_str(&mut out, "  cached:");
        push_decimal(&mut out, cached);
    }
    if reasoning > 0 {
        push_str(&mut out, "  think:");
        push_decimal(&mut out, reasoning);
    }
    if context_size > 0 && last_input_tokens > 0 {
        let pct = last_input_tokens * 100 / context_size;
        let size_k = context_size / 1000;
        push_str(&mut out, "  ");
        push_decimal(&mut out, pct);
        push_str(&mut out, "% of ");
        push_decimal(&mut out, size_k);
        push_str(&mut out, "k");
    }
    assert(out@ =~= spec_context_stats(
        input_tokens,
        output_tokens,
        total_tokens,
        cached,
        reasoning,
        last_input_tokens,
        context_size,
        compacted,
    ));
    string_of(&out)
}

/// The icon of a plan step: an empty box, a circling arrow, a tick.
pub open spec fn spec_status_icon(s: TodoStatus) -> Seq<char> {
    match s {
        TodoStatus::Pending => "☐"@,
        TodoStatus::InProgress => "⟳"@,
        TodoStatus::Completed => "✓"@,
    }
}

/// One line per plan step: its icon and its content.
pub open spec fn spec_todo_lines(todos: Seq<TodoItem>) -> Seq<Seq<char>> {
    todos.map_values(|t: TodoItem| "  "@ + spec_status_icon(t.status) + " "@ + t.content@)
}

/// The lines of the plan (the program colours them by status).
pub fn todo_lines(todos: &Vec<TodoItem>) -> (r: Vec<String>)
    ensures
        r@.map_values(|s: String| s@) == spec_todo_lines(todos@),
{
    let mut out: Vec<String> = Vec::new();
    let mut i: usize = 0;
    while i < todos.len()
        invariant
            i <= todos.len(),
            out@.len() == i,
            forall|k: int|
                0 <= k < i ==> (#[trigger] out@[k])@ == "  "@ + spec_status_icon(todos@[k].status)
                    + " "@ + todos@[k].content@,
        decreases todos.len() - i,
    {
        let mut l: Vec<char> = Vec::new();
        push_str(&mut l, "  ");
        match todos[i].status {
            TodoStatus::Pending => push_str(&mut l, "☐"),
            TodoStatus::InProgress => push_str(&mut l, "⟳"),
            TodoStatus::Completed => push_str(&mut l, "✓"),
        }
        push_str(&mut l, " ");
        push_str(&mut l, todos[i].content.as_str());
        out.push(string_of(&l));
        i += 1;
    }
    assert(out@.map_values(|s: String| s@) =~= spec_todo_lines(todos@));
    out
}

/// The preview of a subagent's task: its first 72 characters, and `…` when
/// there are more.
pub open spec fn spec_subagent_preview(task: Seq<char>) -> Seq<char> {
    if task.len() > 72 {
        task.take(72) + "…"@
    } else {
        task
    }
}

/// The preview shown when a subagent starts.
pub fn subagent_preview(task: &str) -> (r: String)
    ensures
        r@ == spec_subagent_preview(task@),
{
    let t = chars_of(task);
    if t.len() > 72 {
        let mut out = crate::text::slice_chars(&t, 0, 72);
        push_str(&mut out, "…");
        string_of(&out)
    } else {
        task.to_string()
    }
}

/// `n` right-aligned in a field of two characters (`{:>2}`).
pub open spec fn right2(n: nat) -> Seq<char> {
    if decimal(n).len() < 2 {
        seq![' '] + decimal(n)
    } else {
        decimal(n)
    }
}

/// The line of the `i`-th model (counted from 0) in the model list, marked
/// when it is the current one.
pub open spec fn model_line(i: nat, m: Seq<char>, current: Seq<char>) -> Seq<char> {
    "  ["@ + right2(i + 1) + "] "@ + m + if m == current {
        " ◀"@
    } else {
        seq![]
    }
}

/// The model list: one line per model, numbered from 1, with whether it is
/// the current model (the program shows that one brighter).
pub fn model_list_lines(models: &Vec<String>, current: &str) -> (r: Vec<(String, bool)>)
    requires
        models.len() < u64::MAX,
    ensures
        r@.len() == models@.len(),
        forall|i: int|
            0 <= i < r@.len() ==> (#[trigger] r@[i]).0@ == model_line(
                i as nat,
                models@[i]@,
                current@,
            ) && r@[i].1 == (models@[i]@ == current@),
{
    let cv = chars_of(current);
    let mut out: Vec<(String, bool)> = Vec::new();
    let mut i: usize = 0;
    while i < models.len()
        invariant
            i <= models.len(),
            models.len() < u64::MAX,
            cv@ == current@,
            out@.len() == i,
            forall|k: int|
                0 <= k < i ==> (#[trigger] out@[k]).0@ == model_line(k as nat, models@[k]@, current@)
                    && out@[k].1 == (models@[k]@ == current@),
        decreases models.len() - i,
    {
        let mv = chars_of(models[i].as_str());
        let is_current = crate::text::eq_chars(&mv, &cv);
        let mut num: Vec<char> = Vec::new();
        push_decimal(&mut num, (i + 1) as u64);
        let mut l: Vec<char> = Vec::new();
        push_str(&mut l, "  [");
        if num.len() < 2 {
            l.push(' ');
        }
        crate::text::push_all(&mut l, &num);
        push_str(&mut l, "] ");
        crate::text::push_all(&mut l, &mv);
        if is_current {
            push_str(&mut l, " ◀");
        }
        assert(l@ =~= model_line(i as nat, models@[i as int]@, current@));
        out.push((string_of(&l), is_current));
        i += 1;
    }
    out
}

} // verus!
