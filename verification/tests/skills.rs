use kapitoshka::skills::{
    load, md_file_stem, parse_description_from_toml, parse_skill_file, resolve, split_command, Skill, SkillFile,
};

// ── split_command ─────────────────────────────────────────────────────────

#[test]
fn split_no_args() {
    let (cmd, args) = split_command("/review");
    assert_eq!((cmd.as_str(), args.as_str()), ("/review", ""));
}

#[test]
fn split_with_args() {
    let (cmd, args) = split_command("/explain src/main.rs");
    assert_eq!(cmd, "/explain");
    assert_eq!(args, "src/main.rs");
}

#[test]
fn split_trims_extra_whitespace() {
    let (cmd, args) = split_command("/explain   src/main.rs");
    assert_eq!(cmd, "/explain");
    assert_eq!(args, "src/main.rs");
}

// ── parse_skill_file ──────────────────────────────────────────────────────

#[test]
fn parse_no_frontmatter() {
    let (desc, body) = parse_skill_file("Do the thing in {dir}.", "review");
    assert_eq!(desc, "review");
    assert_eq!(body, "Do the thing in {dir}.");
}

#[test]
fn parse_frontmatter_description() {
    let content = "---\ndescription = \"review the diff\"\n---\nRun git diff in {dir}.";
    let (desc, body) = parse_skill_file(content, "review");
    assert_eq!(desc, "review the diff");
    assert_eq!(body, "Run git diff in {dir}.");
}

#[test]
fn parse_frontmatter_single_quotes() {
    let content = "---\ndescription = 'run tests'\n---\nVerify {dir}.";
    let (desc, body) = parse_skill_file(content, "verify");
    assert_eq!(desc, "run tests");
    assert_eq!(body, "Verify {dir}.");
}

#[test]
fn parse_frontmatter_missing_description_falls_back_to_stem() {
    let content = "---\nauthor = \"alice\"\n---\nDo something.";
    let (desc, _) = parse_skill_file(content, "mytool");
    assert_eq!(desc, "mytool");
}

#[test]
fn parse_unclosed_frontmatter_treated_as_body() {
    let content = "---\ndescription = \"oops\"\nno closing fence";
    let (desc, _) = parse_skill_file(content, "broken");
    assert_eq!(desc, "broken");
}

// ── Skill::expand ─────────────────────────────────────────────────────────

#[test]
fn expand_substitutes_dir_and_args() {
    let skill = Skill::new("/explain", "explain", "Explain {args} in {dir}.");
    assert_eq!(
        skill.expand("/home/user/proj", "src/"),
        "Explain src/ in /home/user/proj."
    );
}

#[test]
fn expand_no_args_leaves_placeholder_empty() {
    let skill = Skill::new("/review", "review", "Review {dir} args={args}.");
    assert_eq!(skill.expand("/proj", ""), "Review /proj args=.");
}

// ── resolve ───────────────────────────────────────────────────────────────

#[test]
fn resolve_matches_command() {
    let skills = vec![Skill::new("/review", "review", "Review {dir}.")];
    let result = resolve(&skills, "/review", "/proj");
    assert_eq!(result, Some("Review /proj.".to_string()));
}

#[test]
fn resolve_passes_args() {
    let skills = vec![Skill::new(
        "/explain",
        "explain",
        "Explain {args} in {dir}.",
    )];
    let result = resolve(&skills, "/explain src/lib.rs", "/proj");
    assert_eq!(result, Some("Explain src/lib.rs in /proj.".to_string()));
}

#[test]
fn resolve_unknown_returns_none() {
    let skills = vec![Skill::new("/review", "review", "Review {dir}.")];
    assert!(resolve(&skills, "/unknown", "/proj").is_none());
}

#[test]
fn resolve_plain_message_returns_none() {
    let skills = vec![Skill::new("/review", "review", "Review {dir}.")];
    assert!(resolve(&skills, "fix the bug", "/proj").is_none());
}

#[test]
fn resolve_builtin_model_returns_none() {
    // /model is handled upstream, not by resolve.
    let skills: Vec<Skill> = vec![];
    assert!(resolve(&skills, "/model", "/proj").is_none());
}

// ── load ──────────────────────────────────────────────────────────────────

fn file(name: &str, content: &str) -> SkillFile {
    SkillFile { file_name: name.to_string(), content: content.to_string() }
}

#[test]
fn load_dir_reads_md_files() {
    let files = vec![file("myskill.md", "---\ndescription = \"do a thing\"\n---\nDo {dir}.")];
    let skills = load(&files);
    let skill = skills.iter().find(|s| s.name == "/myskill").expect("loaded");
    assert_eq!(skill.description, "do a thing");
    assert_eq!(skill.template, "Do {dir}.");
}

#[test]
fn load_dir_ignores_non_md_files() {
    let files = vec![file("notes.txt", "not a skill")];
    assert!(load(&files).is_empty());
}

#[test]
fn load_dir_missing_dir_is_no_op() {
    let files: Vec<SkillFile> = vec![];
    assert!(load(&files).is_empty());
}

#[test]
fn load_project_overrides_global() {
    let files = vec![file("review.md", "global template"), file("review.md", "project template")];
    let skills = load(&files);
    assert_eq!(skills.len(), 1);
    assert_eq!(skills[0].name, "/review");
    assert_eq!(skills[0].template, "project template");
}

#[test]
fn load_sorts_by_name_and_keeps_one_per_name() {
    let files = vec![
        file("zeta.md", "z"),
        file("alpha.md", "a1"),
        file("alpha.md", "a2"),
        file("README", "not a skill"),
    ];
    let skills = load(&files);
    let names: Vec<&str> = skills.iter().map(|s| s.name.as_str()).collect();
    assert_eq!(names, vec!["/alpha", "/zeta"]);
    assert_eq!(skills[0].template, "a2");
    assert_eq!(skills[0].description, "alpha");
}

#[test]
fn md_file_stem_splits_at_last_dot() {
    assert_eq!(md_file_stem("a.b.md"), Some("a.b".to_string()));
    assert_eq!(md_file_stem("notes.txt"), None);
    assert_eq!(md_file_stem(".md"), None);
    assert_eq!(md_file_stem("md"), None);
}

#[test]
fn description_from_front_matter_lines() {
    assert_eq!(
        parse_description_from_toml("title = 'x'\ndescription = \"hi\""),
        Some("hi".to_string())
    );
    assert_eq!(parse_description_from_toml("  description='q'  "), Some("q".to_string()));
    assert_eq!(parse_description_from_toml("descriptionary = 1"), None);
    assert_eq!(parse_description_from_toml("description: x"), None);
}
