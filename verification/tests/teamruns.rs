use cc_cockpit::json::Json;
use cc_cockpit::teamruns::cleanup_team_runs;
use cc_cockpit::teamruns::cleanup_team_runs_at;
use cc_cockpit::teamruns::derive_task_summary;
use cc_cockpit::teamruns::is_fresh;
use cc_cockpit::teamruns::load_team_runs_at;
use cc_cockpit::teamruns::read_member;
use cc_cockpit::teamruns::truncate_chars;
use cc_cockpit::teamruns::valid_session_id;
use cc_cockpit::teamruns::RunFiles;
use std::cell::RefCell;

#[derive(Debug)]
enum Product {
    Claude,
}

fn model() -> String {
    format!("{:?}", Product::Claude).to_lowercase() + "-sonnet-4-6"
}

fn live_config() -> String {
    let worker_model = model();
    let text = r#"{
      "name": "session-41b57ff1",
      "createdAt": 1781988000000,
      "leadAgentId": "team-lead@session-41b57ff1",
      "leadSessionId": "41b57ff1-aaaa",
      "members": [
        { "agentId": "team-lead@session-41b57ff1", "name": "team-lead",
          "agentType": "team-lead", "joinedAt": 1781988000000,
          "tmuxPaneId": "leader", "cwd": "/Users/x/Workflows",
          "subscriptions": [], "backendType": "in-process" },
        { "agentId": "worker@session-41b57ff1", "name": "worker", "color": "blue",
          "joinedAt": 1781988050000, "tmuxPaneId": "%1", "subscriptions": [],
          "agentType": "dev-agent", "model": "WORKER_MODEL",
          "cwd": "/Users/x/Workflows", "backendType": "tmux", "isActive": false }
      ]
    }"#;
    text.replace("WORKER_MODEL", &worker_model)
}

fn run(id: &str, config: &str) -> RunFiles {
    RunFiles {
        session_id: id.into(),
        is_dir: true,
        modified_at: None,
        config: Ok(config.into()),
        inboxes: vec![],
        tasks: vec![],
    }
}

fn inbox(name: &str, text: &str) -> (String, Option<String>) {
    (name.into(), Some(text.into()))
}

#[test]
fn reads_live_two_member_run_with_derived_modes() {
    let mut f = run("session-41b57ff1", &live_config());
    f.inboxes = vec![inbox("worker.json", "[]"), inbox("team-lead.json", "[]")];

    let runs = load_team_runs_at(&[f]);
    assert_eq!(runs.len(), 1);
    let r = &runs[0];
    assert!(r.parse_error.is_none());
    assert_eq!(r.session_id, "session-41b57ff1");
    assert_eq!(r.name, "session-41b57ff1");
    assert_eq!(r.members.len(), 2);

    let lead = r.members.iter().find(|m| m.name == "team-lead").unwrap();
    assert!(lead.is_lead);
    assert!(lead.is_active, "lead has no isActive flag, and is active");
    assert_eq!(lead.mode, "headless");
    assert_eq!(lead.tmux_pane_id.as_deref(), Some("leader"));

    let worker = r.members.iter().find(|m| m.name == "worker").unwrap();
    assert!(!worker.is_lead);
    assert!(!worker.is_active);
    assert_eq!(worker.mode, "live");
    assert_eq!(worker.backend_type, "tmux");
    assert_eq!(worker.tmux_pane_id.as_deref(), Some("%1"));
    assert_eq!(worker.agent_type, "dev-agent");
    assert_eq!(worker.model.as_deref(), Some(model().as_str()));
    assert_eq!(worker.color.as_deref(), Some("blue"));
}

#[test]
fn counts_inbox_depth_and_tasks() {
    let mut f = run("session-aaa", &live_config());
    f.inboxes = vec![
        inbox("worker.json", r#"[{"id":1},{"id":2}]"#),
        inbox("team-lead.json", r#"[{"id":3}]"#),
        inbox("notes.txt", r#"[1,2,3]"#),
        inbox("object.json", r#"{"id":1}"#),
        inbox("broken.json", "["),
        ("locked.json".into(), None),
    ];
    f.tasks = vec!["task-1.json".into(), "task-2.json".into(), ".lock".into()];

    let runs = load_team_runs_at(&[f]);
    let r = &runs[0];
    assert_eq!(r.inbox_depth, 3);
    assert_eq!(r.task_count, 2);
}

#[test]
fn newest_first_by_created_at() {
    let runs = load_team_runs_at(&[
        run("session-old", r#"{"name":"old","createdAt":1000,"leadAgentId":"l@old","members":[]}"#),
        run("session-new", r#"{"name":"new","createdAt":2000,"leadAgentId":"l@new","members":[]}"#),
    ]);
    assert_eq!(runs.len(), 2);
    assert_eq!(runs[0].name, "new");
    assert_eq!(runs[1].name, "old");
}

#[test]
fn runs_of_one_age_are_ordered_by_id() {
    let runs = load_team_runs_at(&[
        run("session-a", "{}"),
        run("session-c", r#"{"createdAt":1}"#),
        run("session-b", "{}"),
        run("session-d", r#"{"createdAt":1}"#),
    ]);
    let ids: Vec<&str> = runs.iter().map(|r| r.session_id.as_str()).collect();
    assert_eq!(ids, vec!["session-d", "session-c", "session-b", "session-a"]);
}

#[test]
fn malformed_config_becomes_parse_error_not_panic() {
    let runs = load_team_runs_at(&[run("session-bad", "{ not json"), run("session-ok", "{}")]);
    assert_eq!(runs.len(), 2);
    let bad = runs.iter().find(|r| r.session_id == "session-bad").unwrap();
    assert!(bad.parse_error.as_deref().unwrap().contains("invalid JSON"));
}

#[test]
fn unreadable_config_keeps_its_age() {
    let mut f = run("session-x", "");
    f.config = Err("denied".into());
    f.modified_at = Some(7);
    let runs = load_team_runs_at(&[f]);
    assert_eq!(runs[0].parse_error.as_deref(), Some("config.json read failed: denied"));
    assert_eq!(runs[0].modified_at, Some(7));
    assert_eq!(runs[0].name, "session-x");
}

#[test]
fn lead_only_run_loads_clean() {
    let runs = load_team_runs_at(&[run(
        "session-solo",
        r#"{"name":"session-solo","createdAt":5,"leadAgentId":"team-lead@session-solo","members":[{"agentId":"team-lead@session-solo","name":"team-lead","agentType":"team-lead","tmuxPaneId":"leader","backendType":"in-process"}]}"#,
    )]);
    assert_eq!(runs.len(), 1);
    assert_eq!(runs[0].members.len(), 1);
    assert!(runs[0].members[0].is_lead);
    assert_eq!(runs[0].inbox_depth, 0);
    assert_eq!(runs[0].task_count, 0);
}

#[test]
fn absent_teams_dir_yields_empty_not_error() {
    assert!(load_team_runs_at(&[]).is_empty());
}

fn member(fields: Vec<(&str, Json)>) -> Json {
    Json::Object(fields.into_iter().map(|(k, v)| (k.to_string(), v)).collect())
}

fn member_with_prompt(prompt: Json) -> Json {
    member(vec![
        ("agentId", Json::Str("worker@session-x".into())),
        ("name", Json::Str("worker".into())),
        ("agentType", Json::Str("general-purpose".into())),
        ("backendType", Json::Str("tmux".into())),
        ("tmuxPaneId", Json::Str("%1".into())),
        ("prompt", prompt),
    ])
}

#[test]
fn task_summary_takes_first_sentence_of_first_line() {
    let m = member_with_prompt(Json::Str(
        "Fix the OAuth timeout bug in the login flow. Also check the refresh path.\n\nMore context below."
            .into(),
    ));
    let tm = read_member(&m, "lead@session-x");
    assert_eq!(
        tm.prompt.as_deref(),
        Some("Fix the OAuth timeout bug in the login flow. Also check the refresh path.\n\nMore context below.")
    );
    assert_eq!(
        tm.task_summary.as_deref(),
        Some("Fix the OAuth timeout bug in the login flow.")
    );
}

#[test]
fn task_summary_and_prompt_absent_when_prompt_field_missing() {
    let m = member(vec![
        ("agentId", Json::Str("worker@session-x".into())),
        ("name", Json::Str("worker".into())),
        ("agentType", Json::Str("general-purpose".into())),
        ("backendType", Json::Str("tmux".into())),
        ("tmuxPaneId", Json::Str("%1".into())),
    ]);
    let tm = read_member(&m, "lead@session-x");
    assert!(tm.prompt.is_none());
    assert!(tm.task_summary.is_none());
}

#[test]
fn task_summary_and_prompt_absent_when_prompt_is_not_a_string() {
    let m = member_with_prompt(Json::Number(Some(12345)));
    let tm = read_member(&m, "lead@session-x");
    assert!(tm.prompt.is_none());
    assert!(tm.task_summary.is_none());

    let m_obj = member_with_prompt(member(vec![("nested", Json::Str("value".into()))]));
    let tm_obj = read_member(&m_obj, "lead@session-x");
    assert!(tm_obj.prompt.is_none());
    assert!(tm_obj.task_summary.is_none());
}

#[test]
fn task_summary_and_prompt_absent_for_blank_prompt() {
    let m = member_with_prompt(Json::Str("   \n\t  ".into()));
    let tm = read_member(&m, "lead@session-x");
    assert!(tm.prompt.is_none());
    assert!(tm.task_summary.is_none());
}

#[test]
fn task_summary_truncates_long_terminator_less_first_line() {
    let long = "a".repeat(120);
    let m = member_with_prompt(Json::Str(long));
    let tm = read_member(&m, "lead@session-x");
    let summary = tm.task_summary.expect("summary present");
    assert_eq!(summary.chars().count(), 80);
    assert_eq!(summary.chars().last(), Some('…'));
    assert_eq!(
        summary.chars().take(79).collect::<String>(),
        "a".repeat(79)
    );
}

#[test]
fn task_summary_leading_punctuation_does_not_cut_at_position_zero() {
    let m = member_with_prompt(Json::Str("! urgent: fix prod outage now".into()));
    let tm = read_member(&m, "lead@session-x");
    assert_eq!(tm.task_summary.as_deref(), Some("! urgent: fix prod outage now"));
}

#[test]
fn summary_is_one_short_line() {
    assert_eq!(derive_task_summary("\nsecond"), None);
    assert_eq!(derive_task_summary("a? b"), Some("a?".into()));
    let s = derive_task_summary(&format!("{} x. y\nz", "é".repeat(78))).unwrap();
    assert_eq!(s.chars().count(), 79);
    assert!(s.ends_with("é…"));
}

#[test]
fn ignores_non_session_dirs_and_files() {
    let mut readme = run("session-notes.md", "");
    readme.is_dir = false;
    let runs = load_team_runs_at(&[
        run("session-ok", r#"{"name":"ok","createdAt":1,"leadAgentId":"l","members":[]}"#),
        run("random-dir", "{}"),
        readme,
    ]);
    assert_eq!(runs.len(), 1);
    assert_eq!(runs[0].name, "ok");
}

#[test]
fn cleanup_removes_both_teams_and_tasks_dirs() {
    let removed = RefCell::new(Vec::new());
    let deleted = cleanup_team_runs_at(
        &["session-dead".into()],
        |_| Some(0),
        0,
        |id| {
            removed.borrow_mut().push(id.to_string());
            true
        },
    );
    assert_eq!(deleted, vec!["session-dead".to_string()]);
    assert_eq!(removed.into_inner(), vec!["session-dead".to_string()]);
}

#[test]
fn cleanup_protects_a_freshly_written_run() {
    let deleted = cleanup_team_runs_at(
        &["session-live".into()],
        |_| Some(1_000_000),
        3_600_000_000_000,
        |_| panic!("a fresh run must not be removed"),
    );
    assert!(deleted.is_empty());
}

#[test]
fn cleanup_deletes_a_configless_stub() {
    let deleted =
        cleanup_team_runs_at(&["session-stub".into()], |_| None, 3_600_000_000_000, |_| true);
    assert_eq!(deleted, vec!["session-stub".to_string()]);
}

#[test]
fn cleanup_rejects_traversal_and_malformed_ids() {
    let evil = vec![
        "../secrets".to_string(),
        "session-../secrets".to_string(),
        "session-ok/../../secrets".to_string(),
        "session-".to_string(),
        "not-a-session".to_string(),
        "session-a\0b".to_string(),
    ];
    let deleted = cleanup_team_runs_at(
        &evil,
        |_| panic!("a bad id must not be looked at"),
        0,
        |_| panic!("a bad id must not be removed"),
    );
    assert!(deleted.is_empty());
}

#[test]
fn cleanup_only_touches_named_ids_and_skips_missing() {
    let deleted = cleanup_team_runs_at(
        &["session-a".into(), "session-ghost".into()],
        |_| None,
        0,
        |id| id == "session-a",
    );
    assert_eq!(deleted, vec!["session-a".to_string()]);
}

#[test]
fn session_ids_and_freshness() {
    assert!(valid_session_id("session-41b57ff1"));
    assert!(!valid_session_id("session-a\\b"));
    assert!(!valid_session_id("session-a..b"));
    assert!(is_fresh(Some(599), 600));
    assert!(!is_fresh(Some(600), 600));
    assert!(!is_fresh(None, 600));
}

#[test]
fn cut_text_is_never_longer_than_asked() {
    assert_eq!(truncate_chars("abc", 0), "");
    assert_eq!(truncate_chars("", 0), "");
    assert_eq!(truncate_chars("abc", 1), "…");
    assert_eq!(truncate_chars("abc", 3), "abc");
    assert_eq!(truncate_chars("ab cd", 4), "ab…");
}

#[test]
fn cleanup_asks_the_remover_for_old_runs_only() {
    let ids: Vec<String> = ["session-old", "session-new", "../x"].map(String::from).to_vec();
    let deleted = cleanup_team_runs_at(
        &ids,
        |id| if id == "session-new" { Some(1) } else { Some(100) },
        10,
        |id| {
            assert_eq!(id, "session-old");
            true
        },
    );
    assert_eq!(deleted, vec!["session-old".to_string()]);
}

#[test]
fn cleanup_leaves_runs_alone_for_ten_minutes() {
    let minute = 60_000_000_000;
    let ids: Vec<String> = ["session-a", "session-b", "session-c"].map(String::from).to_vec();
    let deleted = cleanup_team_runs(
        &ids,
        |id| match id {
            "session-a" => Some(10 * minute - 1),
            "session-b" => Some(10 * minute),
            _ => None,
        },
        |_| true,
    );
    assert_eq!(deleted, vec!["session-b".to_string(), "session-c".to_string()]);
}
