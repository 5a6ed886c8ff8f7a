# attend

Editor state and voice narration for coding agents, with the logic written
in Verus and proved against its contracts.

- `src/` is the verified library:
  - `model`: resolving Zed's byte-offset selections to line:col positions and
    building the editor state; `json`: the JSON payloads and timestamps.
  - `merge` and `merge_laws`: the chronological merge and compression of
    narration events, and the properties proved of it (speech is never lost,
    the output is chronological, one cursor snapshot and one diff per path
    survive, one snapshot per run).
  - `filter` and `filter_laws`: scoping events to the project, redaction
    markers and their collapse; `paths`: component-wise path prefixes.
  - `event_text`: one-line summaries of events and unified diffs.
  - `capture`: the decisions of the capture threads (pause/resume/stop,
    external selection, clipboard and cursor-dwell tracking, chimes);
    `diff_capture`: which polled file changes become diffs.
  - `narrate` and `status`: lock files, pending narrations, the listener's
    decisions and the status report.
  - `hook_*`: the agent hooks' decisions and the narration ownership state.
  - `zed` and `jsonc`: the Zed integration's keybindings, tasks and health
    check, and JSON-with-comments cleanup.
- `app/` is the command around it: files, the SQLite database, processes,
  stdin/stdout, serde, and audio synthesis.
- `tests/` exercise the library on concrete values.
