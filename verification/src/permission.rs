//! How tool actions are approved.
use crate::text::{
    chars_of, eq_str, lowercase, lowercase_chars, trim, trim_chars,
};
use vstd::prelude::*;

verus! {

/// Who decides whether a tool may perform an action.
#[derive(Clone, Copy, Debug, PartialEq, Eq)]
pub enum PermissionHandler {
    /// Ask the user at the terminal and wait for a `y`/`N` answer.
    Interactive,
    /// Approve every action without asking (used for subagents).
    AutoApprove,
}

/// Interactive terminal handler: prints the action and reads y/N from stdin.
pub fn interactive() -> (h: PermissionHandler)
    ensures
        h == PermissionHandler::Interactive,
{
    PermissionHandler::Interactive
}

/// Non-interactive handler for subagents: approves all tool calls.
pub fn auto_approve() -> (h: PermissionHandler)
    ensures
        h == PermissionHandler::AutoApprove,
{
    PermissionHandler::AutoApprove
}

/// The user's answer approves the action: it is `y` or `yes` once trimmed
/// and lowercased.
pub open spec fn spec_is_affirmative(answer: Seq<char>) -> bool {
    let a = lowercase(trim(answer));
    a == "y"@ || a == "yes"@
}

/// Whether the answer typed at the permission prompt approves the action.
pub fn is_affirmative(answer: &str) -> (b: bool)
    ensures
        b == spec_is_affirmative(answer@),
{
    let t = trim_chars(&chars_of(answer));
    let l = lowercase_chars(&t);
    eq_str(&l, "y") || eq_str(&l, "yes")
}

} // verus!
