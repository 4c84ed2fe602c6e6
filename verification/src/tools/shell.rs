//! The `run_shell` tool: the command blocklist and the shaping of its output.
use crate::permission::PermissionHandler;
use crate::text::{chars_of, collapse_ws, contains, find_chars, push_str, string_of};
use crate::tools::squash::{normalise, spec_normalise, spec_squash_normalised, squash_normalised};
use vstd::prelude::*;

verus! {

/// An error of the `run_shell` tool.
#[derive(Debug)]
pub struct ShellError(pub String);

impl ShellError {
    /// The error as the user sees it: `shell error: <message>`.
    pub fn display(&self) -> (r: String)
        ensures
            r@ == "shell error: "@ + self.0@,
    {
        let mut v = chars_of("shell error: ");
        push_str(&mut v, self.0.as_str());
        string_of(&v)
    }
}

/// Number of blocklist rules.
pub const BLOCKLIST_LEN: usize = 21;

/// Patterns that are never allowed, each with the reason it is refused.
/// Matching is done on the normalised command string (collapsed whitespace,
/// lowercased).
pub open spec fn blocklist() -> Seq<(Seq<char>, Seq<char>)> {
    seq![
        ("rm -rf /"@, "deletes the entire filesystem"@),
        ("rm -fr /"@, "deletes the entire filesystem"@),
        ("rm --no-preserve-root"@, "deletes the entire filesystem"@),
        ("> /dev/sda"@, "overwrites a raw disk device"@),
        ("mkfs"@, "formats a disk partition"@),
        ("dd if="@, "raw disk write — potential data loss"@),
        ("sudo"@, "privilege escalation is not allowed"@),
        ("su -"@, "privilege escalation is not allowed"@),
        ("pkexec"@, "privilege escalation is not allowed"@),
        ("curl "@, "outbound network access is not allowed"@),
        ("wget "@, "outbound network access is not allowed"@),
        ("nc "@, "outbound network access is not allowed"@),
        ("ncat "@, "outbound network access is not allowed"@),
        ("ssh "@, "outbound network access is not allowed"@),
        ("scp "@, "outbound network access is not allowed"@),
        ("rsync "@, "outbound network access is not allowed"@),
        (":(){ :|:& };:"@, "fork bomb"@),
        ("git push"@, "pushing to remotes is not allowed"@),
        ("git push --force"@, "force-pushing to remotes is not allowed"@),
        ("eval "@, "dynamic eval is not allowed"@),
        ("exec "@, "exec replacement is not allowed"@),
    ]
}

/// Rule `i` of the blocklist, as `(pattern, reason)`.
pub fn blocklist_entry(i: usize) -> (r: (&'static str, &'static str))
    requires
        i < BLOCKLIST_LEN,
    ensures
        (r.0@, r.1@) == blocklist()[i as int],
{
    match i {
        0 => ("rm -rf /", "deletes the entire filesystem"),
        1 => ("rm -fr /", "deletes the entire filesystem"),
        2 => ("rm --no-preserve-root", "deletes the entire filesystem"),
        3 => ("> /dev/sda", "overwrites a raw disk device"),
        4 => ("mkfs", "formats a disk partition"),
        5 => ("dd if=", "raw disk write — potential data loss"),
        6 => ("sudo", "privilege escalation is not allowed"),
        7 => ("su -", "privilege escalation is not allowed"),
        8 => ("pkexec", "privilege escalation is not allowed"),
        9 => ("curl ", "outbound network access is not allowed"),
        10 => ("wget ", "outbound network access is not allowed"),
        11 => ("nc ", "outbound network access is not allowed"),
        12 => ("ncat ", "outbound network access is not allowed"),
        13 => ("ssh ", "outbound network access is not allowed"),
        14 => ("scp ", "outbound network access is not allowed"),
        15 => ("rsync ", "outbound network access is not allowed"),
        16 => (":(){ :|:& };:", "fork bomb"),
        17 => ("git push", "pushing to remotes is not allowed"),
        18 => ("git push --force", "force-pushing to remotes is not allowed"),
        19 => ("eval ", "dynamic eval is not allowed"),
        _ => ("exec ", "exec replacement is not allowed"),
    }
}

/// The first rule, at index `i` or later, whose pattern occurs in `s`.
pub open spec fn first_blocked_from(s: Seq<char>, i: int) -> Option<int>
    decreases BLOCKLIST_LEN - i,
{
    if i < 0 || i >= BLOCKLIST_LEN {
        None
    } else if contains(s, blocklist()[i].0) {
        Some(i)
    } else {
        first_blocked_from(s, i + 1)
    }
}

/// The first rule whose pattern occurs in `s`.
pub open spec fn first_blocked(s: Seq<char>) -> Option<int> {
    first_blocked_from(s, 0)
}

/// The message reporting that rule `i` refused a command.
pub open spec fn block_message(i: int) -> Seq<char> {
    "command blocked — "@ + blocklist()[i].1 + " (matched rule: `"@ + blocklist()[i].0 + "`)"@
}

/// The blocklist verdict on an already normalised command: refused with the
/// first matching rule's message, or allowed when no pattern occurs.
pub open spec fn spec_check_blocked_normalised(s: Seq<char>) -> Result<(), Seq<char>> {
    match first_blocked(s) {
        Some(i) => Err(block_message(i)),
        None => Ok(()),
    }
}

/// The blocklist verdict on an already normalised command.
pub fn check_blocked_normalised(normalised: &str) -> (r: Result<(), ShellError>)
    ensures
        r is Ok <==> spec_check_blocked_normalised(normalised@) is Ok,
        r matches Err(e) ==> spec_check_blocked_normalised(normalised@) == Err::<(), Seq<char>>(
            e.0@,
        ),
{
    let n = chars_of(normalised);
    let mut i: usize = 0;
    while i < BLOCKLIST_LEN
        invariant
            n@ == normalised@,
            i <= BLOCKLIST_LEN,
            first_blocked(n@) == first_blocked_from(n@, i as int),
        decreases BLOCKLIST_LEN - i,
    {
        let (pattern, reason) = blocklist_entry(i);
        let p = chars_of(pattern);
        if find_chars(&n, &p, 0).is_some() {
            let mut msg = chars_of("command blocked — ");
            push_str(&mut msg, reason);
            push_str(&mut msg, " (matched rule: `");
            push_str(&mut msg, pattern);
            push_str(&mut msg, "`)");
            return Err(ShellError(string_of(&msg)));
        }
        i += 1;
    }
    Ok(())
}

/// Check the command against the blocklist.  Returns `Err` with the matched
/// rule's reason if any rule fires on the normalised command.
pub fn check_blocked(command: &str) -> (r: Result<(), ShellError>)
    ensures
        r is Ok <==> spec_check_blocked_normalised(spec_normalise(command@)) is Ok,
        r matches Err(e) ==> spec_check_blocked_normalised(spec_normalise(command@)) == Err::<
            (),
            Seq<char>,
        >(e.0@),
{
    let n = normalise(command);
    check_blocked_normalised(n.as_str())
}

/// Arguments of the `run_shell` tool.
pub struct RunShellArgs {
    pub command: String,
}

/// What `run_shell` reports back to the model.
#[derive(Debug)]
pub struct ShellOutput {
    pub stdout: String,
    pub stderr: String,
    pub exit_code: i32,
}

/// The `run_shell` tool.
pub struct RunShell {
    pub working_dir: String,
    pub permission: PermissionHandler,
}

impl RunShell {
    pub fn new(working_dir: &str, permission: PermissionHandler) -> (r: Self)
        ensures
            r.working_dir@ == working_dir@,
            r.permission == permission,
    {
        RunShell { working_dir: string_of(&chars_of(working_dir)), permission }
    }
}

/// The tool's report for a finished command: both streams squashed for the
/// command, and the exit code (`-1` when the process had none, e.g. it was
/// killed by a signal).
pub fn shell_output(command: &str, raw_stdout: &str, raw_stderr: &str, code: Option<i32>) -> (r:
    ShellOutput)
    ensures
        (r.stdout@, r.stderr@) == spec_squash_normalised(
            spec_normalise(command@),
            raw_stdout@,
            raw_stderr@,
        ),
        code matches Some(c) ==> r.exit_code == c,
        code is None ==> r.exit_code == -1,
{
    let n = normalise(command);
    let (stdout, stderr) = squash_normalised(n.as_str(), raw_stdout, raw_stderr);
    let exit_code = match code {
        Some(c) => c,
        None => -1,
    };
    ShellOutput { stdout, stderr, exit_code }
}

/// The first step of a `run_shell` call: refuse a blocked command;
/// otherwise say whether the user has to be asked before it runs.
pub open spec fn spec_begin(permission: PermissionHandler, command: Seq<char>) -> Result<
    bool,
    Seq<char>,
> {
    match spec_check_blocked_normalised(spec_normalise(command)) {
        Err(e) => Err(e),
        Ok(_) => Ok(permission == PermissionHandler::Interactive),
    }
}

/// The refusal sent when the user declines a command.
pub const PERMISSION_DENIED: &'static str = "permission denied by user";

impl RunShell {
    /// Decide how a call starts: `Err` for a blocked command, otherwise
    /// whether the user must approve it first.
    pub fn begin(&self, args: &RunShellArgs) -> (r: Result<bool, ShellError>)
        ensures
            match (r, spec_begin(self.permission, args.command@)) {
                (Ok(ask), Ok(b)) => ask == b,
                (Err(e), Err(m)) => e.0@ == m,
                _ => false,
            },
    {
        match check_blocked(args.command.as_str()) {
            Err(e) => Err(e),
            Ok(_) => Ok(
                match self.permission {
                    PermissionHandler::Interactive => true,
                    PermissionHandler::AutoApprove => false,
                },
            ),
        }
    }

    /// After the user answered: go on when approved, refuse otherwise.
    pub fn after_permission(allowed: bool) -> (r: Result<(), ShellError>)
        ensures
            allowed <==> r is Ok,
            r matches Err(e) ==> e.0@ == PERMISSION_DENIED@,
    {
        if allowed {
            Ok(())
        } else {
            Err(ShellError(PERMISSION_DENIED.to_string()))
        }
    }
}

/// Extra whitespace cannot get a command past the blocklist: commands that
/// differ only in their spacing are judged alike.
pub proof fn lemma_blocking_ignores_spacing(a: Seq<char>, b: Seq<char>)
    requires
        collapse_ws(a) == collapse_ws(b),
    ensures
        spec_check_blocked_normalised(spec_normalise(a)) == spec_check_blocked_normalised(
            spec_normalise(b),
        ),
{
}

} // verus!
