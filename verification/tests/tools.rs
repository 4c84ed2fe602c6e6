use kapitoshka::permission::{auto_approve, interactive};
use kapitoshka::tools::fs::{
    io_error, resolve, DirEntry, FsError, ListDir, ListDirArgs, ReadFile, ReadFileArgs, WriteFile,
    WriteFileArgs,
};
use kapitoshka::tools::shell::{RunShell, RunShellArgs, PERMISSION_DENIED};
use kapitoshka::tools::spawn_agent::{full_task, SpawnAgent, SpawnAgentArgs, SpawnAgentError};
use kapitoshka::tools::todo::{TodoError, TodoItem, TodoStatus, TodoWrite, TodoWriteArgs};

fn entry(name: &str, kind: &str) -> DirEntry {
    DirEntry { name: name.to_string(), kind: kind.to_string() }
}

#[test]
fn resolve_joins_relative_paths() {
    assert_eq!(resolve("/work", "src/main.rs"), "/work/src/main.rs");
    assert_eq!(resolve("/work/", "a.txt"), "/work/a.txt");
    assert_eq!(resolve(".", "a.txt"), "./a.txt");
    assert_eq!(resolve("/work", "/etc/hosts"), "/etc/hosts");
    assert_eq!(resolve("", "a.txt"), "a.txt");
}

#[test]
fn file_tools_target_the_working_directory() {
    let r = ReadFile::new("/w");
    assert_eq!(r.target(&ReadFileArgs { path: "x".to_string() }), "/w/x");
    let w = WriteFile::new("/w");
    let args = WriteFileArgs { path: "notes/é.txt".to_string(), content: "héllo".to_string() };
    let path = w.target(&args);
    assert_eq!(path, "/w/notes/é.txt");
    assert_eq!(w.written(&args, &path), "wrote 6 bytes to /w/notes/é.txt");
    let l = ListDir::new("/w");
    assert_eq!(l.target(&ListDirArgs { path: None }), "/w/.");
    assert_eq!(l.target(&ListDirArgs { path: Some("src".to_string()) }), "/w/src");
}

#[test]
fn fs_errors_name_the_path() {
    let e = io_error("/w/x", "No such file or directory (os error 2)");
    assert_eq!(e.display(), "fs error: /w/x: No such file or directory (os error 2)");
    assert_eq!(WriteFile::mkdir_error("/w/a", "denied").0, "create dirs /w/a: denied");
    assert_eq!(FsError("boom".to_string()).display(), "fs error: boom");
}

#[test]
fn listing_is_sorted_by_name() {
    let sorted = ListDir::sort_entries(vec![
        entry("src", "dir"),
        entry("Cargo.toml", "file"),
        entry("README.md", "file"),
        entry("build.rs", "file"),
    ]);
    let names: Vec<&str> = sorted.iter().map(|e| e.name.as_str()).collect();
    assert_eq!(names, ["Cargo.toml", "README.md", "build.rs", "src"]);
    assert_eq!(sorted[3].kind, "dir");
    assert!(ListDir::sort_entries(vec![]).is_empty());
}

#[test]
fn run_shell_refuses_blocked_commands_first() {
    let tool = RunShell::new("/w", interactive());
    let err = tool.begin(&RunShellArgs { command: "sudo ls".to_string() }).unwrap_err();
    assert!(err.0.contains("privilege escalation"));
    assert_eq!(tool.begin(&RunShellArgs { command: "ls".to_string() }).ok(), Some(true));
    let auto = RunShell::new("/w", auto_approve());
    assert_eq!(auto.begin(&RunShellArgs { command: "ls".to_string() }).ok(), Some(false));
    assert!(RunShell::after_permission(true).is_ok());
    assert_eq!(RunShell::after_permission(false).unwrap_err().0, PERMISSION_DENIED);
}

#[test]
fn subagent_task_gets_trimmed_context() {
    let with = SpawnAgentArgs { task: "fix it".to_string(), context: Some("  be careful \n".to_string()) };
    assert_eq!(full_task(&with), "be careful\n\nfix it");
    let blank = SpawnAgentArgs { task: "fix it".to_string(), context: Some("   ".to_string()) };
    assert_eq!(full_task(&blank), "fix it");
    let none = SpawnAgentArgs { task: "fix it".to_string(), context: None };
    assert_eq!(full_task(&none), "fix it");
    let a = SpawnAgent::new("/w", "m", "openai", true);
    assert_eq!(a.model, "m");
    assert!(a.thinking);
    assert_eq!(SpawnAgentError("x".to_string()).display(), "spawn_agent error: x");
}

#[test]
fn todo_write_replaces_the_plan() {
    let mut t = TodoWrite::new(vec![]);
    let items = vec![
        TodoItem { id: "1".to_string(), content: "read".to_string(), status: TodoStatus::Completed },
        TodoItem { id: "2".to_string(), content: "edit".to_string(), status: TodoStatus::InProgress },
    ];
    assert_eq!(t.call(TodoWriteArgs { todos: items }), "Plan updated.");
    assert_eq!(t.items().len(), 2);
    assert_eq!(t.items()[1].content, "edit");
    t.call(TodoWriteArgs { todos: vec![] });
    assert!(t.items().is_empty());
    assert_eq!(TodoError("poisoned".to_string()).display(), "todo error: poisoned");
}
