# kapitoshka

A coding agent that talks to an OpenAI-compatible (or Anthropic) inference
server and works on a code base with file, shell, plan and subagent tools.

The decisions the agent makes are a library verified with Verus; the
program around it handles the terminal, the network and the file system.

## Layout

- `src/` — the verified library
  - `agent.rs` — streaming-response parsing (visible text, `<think>` blocks,
    tool-call markup), the thinking printer, token accounting, AGENTS.md
    rules, model selection, what a typed line means
  - `holdback.rs` — why holding back a possible tag while streaming is safe:
    the output never depends on how the response was cut into chunks
  - `context.rs` — when to compact, shortening old tool results, the
    summary request and the compaction itself
  - `skills.rs`, `completer.rs` — slash-command skills, completion and hints
  - `tools/` — path resolution and listings, the shell blocklist and output
    squashing, the plan, subagent prompts
  - `trajectory.rs` — per-turn records of thinking, tool calls and responses
  - `eval/` — task suites, graders, attempts and the report
  - `ui.rs`, `models.rs`, `settings.rs`, `permission.rs`, `text.rs`
- `tests/` — tests of the library
- `app/` — the program: `kapitoshka --task ...` runs one task headless,
  `kapitoshka chat` starts an interactive session, `kapitoshka eval` runs
  an eval suite

## Running

```bash
export OPENAI_API_KEY=your-key
export OPENAI_BASE_URL=http://127.0.0.1:8080/v1
kapitoshka --task "add error handling to the database module" --dir /path/to/project
```
