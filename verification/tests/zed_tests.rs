use attend::jsonc::{find_line_comment, strip_json_comments, strip_trailing_commas};
use attend::zed::{
    bound_task_names, check_narration_health, editor_by_name, install_task, is_narration_keybinding,
    json_eq, json_get, keybinding_to_install, narration_keybindings, narration_tasks,
    platform_modifier, query, remove_narration_keybindings, remove_narration_tasks, task_entry,
    Editor, Json, QueryResult,
};
use attend::model::RawEditor;

/// Zed's JSONC reduced to JSON, then parsed.
fn parse_jsonc(input: &str) -> serde_json::Result<serde_json::Value> {
    let stripped = strip_json_comments(input);
    let clean = strip_trailing_commas(&stripped);
    serde_json::from_str(&clean)
}

fn to_json(v: &serde_json::Value) -> Json {
    match v {
        serde_json::Value::Null => Json::Null,
        serde_json::Value::Bool(b) => Json::Bool(*b),
        serde_json::Value::Number(n) => Json::Number(n.to_string()),
        serde_json::Value::String(s) => Json::Str(s.clone()),
        serde_json::Value::Array(a) => Json::Array(a.iter().map(to_json).collect()),
        serde_json::Value::Object(m) => {
            Json::Object(m.iter().map(|(k, v)| (k.clone(), to_json(v))).collect())
        },
    }
}

fn json(text: &str) -> Json {
    to_json(&serde_json::from_str::<serde_json::Value>(text).unwrap())
}

fn json_array(text: &str) -> Vec<Json> {
    match json(text) {
        Json::Array(items) => items,
        other => panic!("expected an array, got {other:?}"),
    }
}

fn str_of<'a>(v: &'a Json, key: &str) -> Option<&'a str> {
    match json_get(v, key) {
        Some(Json::Str(s)) => Some(s.as_str()),
        _ => None,
    }
}

fn strings(items: &[&str]) -> Vec<String> {
    items.iter().map(|s| s.to_string()).collect()
}

// ── JSONC ───────────────────────────────────────────────────────────────────

#[test]
fn parse_jsonc_strips_comments() {
    let input = "// header\n{\"key\": \"value\"} // inline\n";
    let v = parse_jsonc(input).unwrap();
    assert_eq!(v["key"], "value");
}

#[test]
fn parse_jsonc_preserves_urls_in_strings() {
    let input = "{\"url\": \"https://example.com\"}";
    let v = parse_jsonc(input).unwrap();
    assert_eq!(v["url"], "https://example.com");
}

#[test]
fn parse_jsonc_trailing_commas() {
    let input = "[{\"a\": 1}, {\"b\": 2},]";
    let parsed = parse_jsonc(input).unwrap();
    assert_eq!(parsed.as_array().unwrap().len(), 2);
}

#[test]
fn parse_jsonc_trailing_comma_in_object() {
    let input = "{\"a\": 1, \"b\": 2,}";
    let v = parse_jsonc(input).unwrap();
    assert_eq!(v["a"], 1);
    assert_eq!(v["b"], 2);
}

#[test]
fn parse_jsonc_with_comments_and_trailing_commas() {
    let input = "// Zed config\n[\n  {\"a\": 1},\n  // second entry\n  {\"b\": 2},\n]\n";
    let parsed = parse_jsonc(input).unwrap();
    let parsed = parsed.as_array().unwrap();
    assert_eq!(parsed.len(), 2);
    assert_eq!(parsed[0]["a"], 1);
    assert_eq!(parsed[1]["b"], 2);
}

#[test]
fn parse_jsonc_invalid_input() {
    assert!(parse_jsonc("not json at all {{{").is_err());
}

#[test]
fn strip_json_comments_exact() {
    assert_eq!(strip_json_comments("  // only\n{\"a\": 1} // tail\r\n\"x//y\"\n"), "{\"a\": 1} \n\"x//y\"\n");
    assert_eq!(strip_json_comments(""), "");
}

#[test]
fn strip_trailing_commas_exact() {
    assert_eq!(strip_trailing_commas("[1, 2 ,\n ]"), "[1, 2 \n ]");
    assert_eq!(strip_trailing_commas("{\"a,}\": 1,}"), "{\"a,}\": 1}");
    assert_eq!(strip_trailing_commas("[\"\\\",]\",]"), "[\"\\\",]\"]");
    assert_eq!(strip_trailing_commas("[1,2]"), "[1,2]");
}

#[test]
fn find_line_comment_skips_strings() {
    assert_eq!(find_line_comment("\"http://x\" // c"), Some(11));
    assert_eq!(find_line_comment("\"a\\\"//b\""), None);
    assert_eq!(find_line_comment(r#"{"url": "https://x"}"#), None);
    assert_eq!(find_line_comment(r#"{"k": 1} // c"#), Some(9));
}

/// The offset is in bytes of the line, as for slicing it.
#[test]
fn find_line_comment_counts_bytes() {
    assert_eq!(find_line_comment("é//"), Some(2));
    let line = "\"ü\": 1 // note";
    let idx = find_line_comment(line).unwrap();
    assert_eq!(&line[idx..], "// note");
}

// ── Keybindings ─────────────────────────────────────────────────────────────

#[test]
fn is_narration_keybinding_current_keys() {
    let flush = json(r#"{"bindings": {"cmd-:": ["task::Spawn", {"task_name": "Flush"}]}}"#);
    let toggle = json(r#"{"bindings": {"cmd-;": ["task::Spawn", {"task_name": "Toggle"}]}}"#);
    assert!(is_narration_keybinding(&flush));
    assert!(is_narration_keybinding(&toggle));
}

#[test]
fn is_narration_keybinding_rejects_multi_binding() {
    let multi = json(r#"{"bindings": {"cmd-:": ["task::Spawn"], "cmd-k": ["other"]}}"#);
    assert!(!is_narration_keybinding(&multi));
}

#[test]
fn is_narration_keybinding_rejects_unrelated() {
    let other = json(r#"{"bindings": {"cmd-s": ["editor::Save"]}}"#);
    assert!(!is_narration_keybinding(&other));
}

#[test]
fn keybinding_install_empty_keymap() {
    let entry = keybinding_to_install(&Vec::new(), "cmd-;", "Toggle").unwrap();
    assert!(is_narration_keybinding(&entry));
    assert_eq!(bound_task_names(&entry), strings(&["Toggle"]));
    let expected = json(r#"{"bindings": {"cmd-;": ["task::Spawn", {"task_name": "Toggle"}]}}"#);
    assert!(json_eq(&entry, &expected));
}

#[test]
fn keybinding_not_installed_when_task_or_key_bound() {
    let keymap = json_array(r#"[{"bindings": {"cmd-k": ["task::Spawn", {"task_name": "Toggle"}]}}]"#);
    assert!(keybinding_to_install(&keymap, "cmd-;", "Toggle").is_none());
    let taken = json_array(r#"[{"context": "Editor", "bindings": {"cmd-;": "editor::Other"}}]"#);
    assert!(keybinding_to_install(&taken, "cmd-;", "Toggle").is_none());
    assert!(keybinding_to_install(&taken, "cmd-:", "Start").is_some());
}

#[test]
fn keybinding_uninstall_preserves_others() {
    let keymap = json_array(
        r#"[{"bindings": {"cmd-;": ["task::Spawn", {"task_name": "Toggle"}]}},
            {"bindings": {"cmd-s": ["editor::Save"]}}]"#,
    );
    let (kept, removed) = remove_narration_keybindings(keymap);
    assert!(removed);
    assert_eq!(kept.len(), 1);
    assert!(json_eq(&kept[0], &json(r#"{"bindings": {"cmd-s": ["editor::Save"]}}"#)));
    let (again, removed_again) = remove_narration_keybindings(kept);
    assert!(!removed_again);
    assert_eq!(again.len(), 1);
}

// ── Tasks ───────────────────────────────────────────────────────────────────

#[test]
fn task_install_empty_file() {
    let args = strings(&["narrate", "flush"]);
    let result = install_task(Vec::new(), "attend", "Flush", &args);
    let tasks = result.tasks.unwrap();
    assert_eq!(tasks.len(), 1);
    assert_eq!(str_of(&tasks[0], "label"), Some("Flush"));
    assert_eq!(str_of(&tasks[0], "command"), Some("attend"));
    assert!(result.replaced_command.is_none());
}

#[test]
fn task_install_replaces_existing() {
    let existing = json_array(r#"[{"label": "Flush", "command": "/old/path/attend", "args": ["narrate", "flush"]}]"#);
    let args = strings(&["narrate", "flush"]);
    let result = install_task(existing, "/new/path/attend", "Flush", &args);
    let tasks = result.tasks.unwrap();
    assert_eq!(tasks.len(), 1);
    assert_eq!(str_of(&tasks[0], "command"), Some("/new/path/attend"));
    assert_eq!(result.replaced_command.as_deref(), Some("/old/path/attend"));
}

#[test]
fn task_install_is_idempotent() {
    let args = strings(&["narrate", "toggle"]);
    let entry = task_entry("attend", "attend: toggle narration", &args);
    let result = install_task(vec![entry], "attend", "attend: toggle narration", &args);
    assert!(result.tasks.is_none());
    assert!(result.replaced_command.is_none());
}

#[test]
fn task_uninstall_preserves_others() {
    let tasks = json_array(
        r#"[{"label": "attend: toggle narration", "command": "attend"},
            {"label": "Build", "command": "cargo build"}]"#,
    );
    let (kept, removed) = remove_narration_tasks(tasks);
    assert!(removed);
    assert_eq!(kept.len(), 1);
    assert_eq!(str_of(&kept[0], "label"), Some("Build"));
}

#[test]
fn task_entry_fields() {
    let entry = task_entry("attend", "attend: yank narration", &strings(&["narrate", "yank"]));
    let expected = json(
        r#"{"allow_concurrent_runs": false, "args": ["narrate", "yank"], "command": "attend",
            "hide": "always", "label": "attend: yank narration", "reveal": "never",
            "use_new_terminal": true}"#,
    );
    assert!(json_eq(&entry, &expected));
}

#[test]
fn narration_definitions() {
    let tasks = narration_tasks();
    assert_eq!(tasks.len(), 4);
    assert_eq!(tasks[0].0, "attend: toggle narration");
    assert_eq!(tasks[3].1, strings(&["narrate", "yank"]));
    let mac = narration_keybindings(true);
    assert_eq!(mac[0], ("cmd-;".to_string(), "attend: toggle narration".to_string()));
    let linux = narration_keybindings(false);
    assert_eq!(linux[3], ("super-}".to_string(), "attend: yank narration".to_string()));
    assert_eq!(platform_modifier(true), "cmd");
    assert_eq!(platform_modifier(false), "super");
}

#[test]
fn health_of_full_install_is_clean() {
    let tasks: Vec<Json> = narration_tasks()
        .iter()
        .map(|(label, args)| task_entry("/usr/bin/attend", label, args))
        .collect();
    let keymap: Vec<Json> = narration_keybindings(true)
        .iter()
        .map(|(key, label)| keybinding_to_install(&Vec::new(), key, label).unwrap())
        .collect();
    let existing = strings(&["/usr/bin/attend"]);
    let warnings = check_narration_health(&tasks, true, &keymap, true, &existing);
    assert!(warnings.is_empty(), "unexpected warnings: {warnings:?}");
    let missing = check_narration_health(&Vec::new(), false, &Vec::new(), false, &Vec::new());
    assert!(!missing.is_empty());
}

// ── Backend ─────────────────────────────────────────────────────────────────

#[test]
fn editor_lookup_and_query_merge() {
    assert_eq!(editor_by_name("zed").map(|e| e.name()), Some("zed"));
    assert!(editor_by_name("vim").is_none());
    let row = |p: &str| RawEditor { path: p.to_string(), sel_start: Some(0), sel_end: Some(1) };
    let merged = query(vec![
        Some(QueryResult { editors: vec![row("/a.rs")] }),
        None,
        Some(QueryResult { editors: vec![row("/b.rs")] }),
    ])
    .unwrap();
    let paths: Vec<&str> = merged.editors.iter().map(|e| e.path.as_str()).collect();
    assert_eq!(paths, vec!["/a.rs", "/b.rs"]);
    assert!(query(vec![None, Some(QueryResult { editors: vec![] })]).is_none());
}
