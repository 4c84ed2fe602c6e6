//! Delegating a self-contained task to a subagent.
use crate::text::{
    chars_of, push_all, push_str, string_of, trim, trim_chars,
};
use vstd::prelude::*;

verus! {

/// Error of the subagent tool.
pub struct SpawnAgentError(pub String);

impl SpawnAgentError {
    /// The error as shown to the model: `spawn_agent error: ` and the message.
    pub fn display(&self) -> (r: String)
        ensures
            r@ == "spawn_agent error: "@ + self.0@,
    {
        let mut out: Vec<char> = Vec::new();
        push_str(&mut out, "spawn_agent error: ");
        push_str(&mut out, self.0.as_str());
        string_of(&out)
    }
}

/// Arguments of `spawn_agent`.
pub struct SpawnAgentArgs {
    /// The task description to hand off to the subagent.
    pub task: String,
    /// Optional extra context put before the task (e.g. role or constraints).
    pub context: Option<String>,
}

/// What the subagent hands back.
pub struct SpawnAgentOutput {
    pub result: String,
}

/// Runs a task in a fresh agent that has the file and shell tools.
pub struct SpawnAgent {
    pub dir: String,
    pub model: String,
    pub provider: String,
    pub thinking: bool,
}

impl SpawnAgent {
    pub fn new(dir: &str, model: &str, provider: &str, thinking: bool) -> (r: Self)
        ensures
            r.dir@ == dir@,
            r.model@ == model@,
            r.provider@ == provider@,
            r.thinking == thinking,
    {
        SpawnAgent {
            dir: dir.to_string(),
            model: model.to_string(),
            provider: provider.to_string(),
            thinking,
        }
    }
}

/// The prompt the subagent gets: the trimmed context and a blank line
/// before the task, when there is a context that is not blank.
pub open spec fn spec_full_task(task: Seq<char>, context: Option<Seq<char>>) -> Seq<char> {
    match context {
        Some(c) => if trim(c).len() > 0 {
            trim(c) + "\n\n"@ + task
        } else {
            task
        },
        None => task,
    }
}

/// The prompt handed to the subagent.
pub fn full_task(args: &SpawnAgentArgs) -> (r: String)
    ensures
        r@ == spec_full_task(
            args.task@,
            match args.context {
                Some(c) => Some(c@),
                None => None,
            },
        ),
{
    match &args.context {
        Some(c) => {
            let t = trim_chars(&chars_of(c.as_str()));
            if t.len() > 0 {
                let mut out: Vec<char> = Vec::new();
                push_all(&mut out, &t);
                push_str(&mut out, "\n\n");
                push_str(&mut out, args.task.as_str());
                string_of(&out)
            } else {
                args.task.clone()
            }
        },
        None => args.task.clone(),
    }
}

} // verus!
