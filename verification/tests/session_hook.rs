use codebase_recall::commands::hook_settings::{
    json_eq, plan_remove_session_hook, plan_session_hook, HookRemoval, Json, SettingsError,
};
use codebase_recall::commands::setup_integrations::Change;

fn s(x: &str) -> Json {
    Json::Str(x.to_string())
}

fn obj(es: Vec<(&str, Json)>) -> Json {
    Json::Object(es.into_iter().map(|(k, v)| (k.to_string(), v)).collect())
}

fn user_settings() -> Json {
    obj(vec![
        (
            "hooks",
            obj(vec![
                (
                    "PostToolUse",
                    Json::Array(vec![obj(vec![
                        ("hooks", Json::Array(vec![obj(vec![("command", s("fmt")), ("type", s("command"))])])),
                        ("matcher", s("Edit")),
                    ])]),
                ),
                (
                    "SessionStart",
                    Json::Array(vec![obj(vec![
                        ("hooks", Json::Array(vec![obj(vec![("command", s("echo mine")), ("type", s("command"))])])),
                        ("matcher", s("startup")),
                    ])]),
                ),
            ]),
        ),
        ("model", s("opus")),
    ])
}

fn field<'a>(j: &'a Json, k: &str) -> &'a Json {
    match j {
        Json::Object(es) => &es.iter().find(|(key, _)| key == k).expect("field").1,
        _ => panic!("not an object"),
    }
}

fn items(j: &Json) -> &Vec<Json> {
    match j {
        Json::Array(v) => v,
        _ => panic!("not an array"),
    }
}

#[test]
fn session_hook_merges_without_touching_other_settings() {
    let original = user_settings();
    let (installed, change) = plan_session_hook(Some(&original), "/usr/bin/code-rcl").unwrap();
    assert_eq!(change, Change::Updated);
    assert!(json_eq(field(&installed, "model"), &s("opus")));
    let hooks = field(&installed, "hooks");
    assert!(json_eq(field(hooks, "PostToolUse"), field(field(&original, "hooks"), "PostToolUse")));
    let groups = items(field(hooks, "SessionStart"));
    assert_eq!(groups.len(), 2);
    let ours = &items(field(&groups[1], "hooks"))[0];
    assert!(json_eq(field(ours, "command"), &s("\"/usr/bin/code-rcl\" setup --print-reminder")));
    assert!(json_eq(field(ours, "timeout"), &Json::Number("10".to_string())));

    let (again, change) = plan_session_hook(Some(&installed), "/usr/bin/code-rcl").unwrap();
    assert_eq!(change, Change::Unchanged);
    assert!(json_eq(&again, &installed));

    match plan_remove_session_hook(Some(&installed)).unwrap() {
        HookRemoval::Write(back) => assert!(json_eq(&back, &original)),
        other => panic!("expected a write, got {other:?}"),
    }
}

#[test]
fn a_new_settings_file_holds_only_our_hook_and_removing_it_deletes_the_file() {
    let (created, change) = plan_session_hook(None, "C:\\tools\\code-rcl.exe").unwrap();
    assert_eq!(change, Change::Created);
    let groups = items(field(field(&created, "hooks"), "SessionStart"));
    assert_eq!(groups.len(), 1);
    assert!(json_eq(field(&groups[0], "matcher"), &s("startup|resume|clear|compact")));
    let ours = &items(field(&groups[0], "hooks"))[0];
    assert!(json_eq(field(ours, "command"), &s("\"C:/tools/code-rcl.exe\" setup --print-reminder")));
    assert!(matches!(plan_remove_session_hook(Some(&created)), Ok(HookRemoval::Delete)));
}

#[test]
fn a_changed_executable_refreshes_our_handler_in_place() {
    let (first, _) = plan_session_hook(None, "/old/code-rcl").unwrap();
    let (second, change) = plan_session_hook(Some(&first), "/new/code-rcl").unwrap();
    assert_eq!(change, Change::Updated);
    let groups = items(field(field(&second, "hooks"), "SessionStart"));
    assert_eq!(groups.len(), 1);
    let ours = &items(field(&groups[0], "hooks"))[0];
    assert!(json_eq(field(ours, "command"), &s("\"/new/code-rcl\" setup --print-reminder")));
}

#[test]
fn malformed_settings_are_refused() {
    assert_eq!(plan_session_hook(Some(&Json::Array(vec![])), "x").unwrap_err(), SettingsError::NotAnObject);
    let bad_hooks = obj(vec![("hooks", Json::Array(vec![]))]);
    assert_eq!(plan_session_hook(Some(&bad_hooks), "x").unwrap_err(), SettingsError::HooksNotAnObject);
    let bad_session = obj(vec![("hooks", obj(vec![("SessionStart", obj(vec![]))]))]);
    assert_eq!(plan_session_hook(Some(&bad_session), "x").unwrap_err(), SettingsError::SessionStartNotAnArray);
    assert!(matches!(plan_remove_session_hook(Some(&Json::Null)), Err(SettingsError::NotAnObject)));
    assert!(matches!(plan_remove_session_hook(None), Ok(HookRemoval::NotPresent)));
    assert!(matches!(plan_remove_session_hook(Some(&user_settings())), Ok(HookRemoval::NotPresent)));
}
