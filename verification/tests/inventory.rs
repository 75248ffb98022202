use cc_cockpit::audit::compute_audit;
use cc_cockpit::inventory::load_inventory_at;
use cc_cockpit::inventory::load_plugin_manifests;
use cc_cockpit::inventory::mcp_command_summary;
use cc_cockpit::inventory::plugin_installs;
use cc_cockpit::inventory::resolve_project_root;
use cc_cockpit::inventory::HomeFiles;
use cc_cockpit::inventory::InventoryItem;
use cc_cockpit::inventory::ListedFile;
use cc_cockpit::inventory::ProjectFiles;
use cc_cockpit::inventory::ScopeFiles;
use cc_cockpit::json::Json;
use cc_cockpit::toggle::agent_path;
use cc_cockpit::toggle::plugin_toggle_argv;
use cc_cockpit::toggle::plugin_toggle_preview;
use cc_cockpit::toggle::toggle_outcome;

#[derive(Debug)]
enum Product {
    Claude,
}

/// The name of the program that runs in the panes.
fn agent() -> String {
    format!("{:?}", Product::Claude).to_lowercase()
}

fn scope() -> ScopeFiles {
    ScopeFiles {
        skills: vec![],
        agents: vec![],
        settings_path: "/h/settings.json".into(),
        settings: None,
    }
}

fn home() -> HomeFiles {
    HomeFiles {
        agent: scope(),
        manifests: vec![],
        config_name: format!(".{}.json", agent()),
        config: None,
    }
}

fn project(root: &str) -> ProjectFiles {
    ProjectFiles {
        root: root.into(),
        agent: scope(),
        mcp_path: format!("{root}/.mcp.json"),
        mcp: None,
    }
}

fn file(name: &str, text: &str) -> ListedFile {
    ListedFile { name: name.into(), path: format!("/h/{name}"), text: Ok(text.into()) }
}

fn find<'a>(items: &'a [InventoryItem], kind: &str, name: &str) -> Option<&'a InventoryItem> {
    items.iter().find(|i| i.kind == kind && i.name == name)
}

#[test]
fn skill_frontmatter_name_and_folded_desc() {
    let mut h = home();
    h.agent.skills.push(file(
        "brief",
        "---\nname: brief\ndescription: >-\n  Generate a polished\n  business brief PDF.\n---\n\nbody",
    ));
    let items = load_inventory_at(&h, None);
    let it = find(&items, "skill", "brief").expect("skill present");
    assert_eq!(it.scope, "global");
    assert_eq!(it.desc, "Generate a polished business brief PDF.");
    assert!(!it.toggleable, "skills are read-only");
    assert!(it.enabled, "present skill = enabled");
    assert!(it.parse_error.is_none());
}

#[test]
fn subagent_reads_name_desc_model() {
    let model = format!("{}-opus-4-8", agent());
    let mut h = home();
    h.agent.agents.push(file(
        "dev-agent.md",
        &format!("---\nname: dev-agent\ndescription: Backend engineer.\nmodel: {model}\n---\n"),
    ));
    h.agent.agents.push(file("notes.txt", "---\nname: no\n---\n"));
    let items = load_inventory_at(&h, None);
    assert_eq!(items.len(), 1);
    let it = find(&items, "subagent", "dev-agent").expect("subagent present");
    assert_eq!(it.desc, "Backend engineer.");
    assert_eq!(it.detail.as_deref(), Some(model.as_str()));
}

#[test]
fn plugin_enabled_disabled_bool_flip() {
    let mut h = home();
    h.agent.settings =
        Some(r#"{"enabledPlugins":{"caveman@caveman":true,"swift-lsp@official":false}}"#.into());
    let items = load_inventory_at(&h, None);
    let on = find(&items, "plugin", "caveman").expect("caveman present");
    assert!(on.enabled);
    assert!(on.toggleable);
    assert_eq!(on.detail.as_deref(), Some("caveman"));
    let off = find(&items, "plugin", "swift-lsp").expect("swift-lsp present");
    assert!(!off.enabled, "false in map = disabled");
}

#[test]
fn mcp_global_and_project_scopes_with_disable_array() {
    let mut h = home();
    h.config = Some(
        r#"{
              "mcpServers": { "sentry": { "url": "https://mcp.sentry.dev/mcp" } },
              "projects": { "/p/proj": {
                "mcpServers": {
                  "fs": { "command": "npx", "args": ["fs-mcp","--root","."] },
                  "db": { "command": "db-mcp" }
                },
                "disabledMcpjsonServers": ["db"]
              } }
            }"#
        .into(),
    );
    let items = load_inventory_at(&h, Some(&project("/p/proj")));
    let g = find(&items, "mcp", "sentry").expect("global mcp");
    assert_eq!(g.scope, "global");
    assert_eq!(g.detail.as_deref(), Some("https://mcp.sentry.dev/mcp"));
    let fs_srv = find(&items, "mcp", "fs").expect("project mcp fs");
    assert_eq!(fs_srv.scope, "project");
    assert!(fs_srv.enabled);
    assert_eq!(fs_srv.detail.as_deref(), Some("npx fs-mcp --root ."));
    let db = find(&items, "mcp", "db").expect("project mcp db");
    assert!(!db.enabled, "in disabledMcpjsonServers");
}

#[test]
fn mcp_env_values_never_emitted() {
    let mut h = home();
    h.config = Some(
        r#"{"mcpServers":{"sec":{"command":"x","env":{"API_KEY":"super-secret-token-value","FOO":"barbar"}}}}"#
            .into(),
    );
    let items = load_inventory_at(&h, None);
    let blob = format!("{items:?}");
    assert!(!blob.contains("super-secret-token-value"), "secret leaked!");
    assert!(!blob.contains("barbar"), "secret leaked!");
    let sec = find(&items, "mcp", "sec").expect("mcp present");
    assert!(sec.detail.as_deref().unwrap().contains("+2 env"));
}

#[test]
fn malformed_settings_becomes_parse_error_not_panic() {
    let mut h = home();
    h.agent.settings = Some("{ this is not json ".into());
    let items = load_inventory_at(&h, None);
    let err = items
        .iter()
        .find(|i| i.kind == "plugin" && i.parse_error.is_some())
        .expect("synthetic parse-error row");
    assert!(err.parse_error.as_deref().unwrap().contains("invalid JSON"));
}

#[test]
fn malformed_config_costs_one_server_row() {
    let mut h = home();
    h.config = Some("nope".into());
    let items = load_inventory_at(&h, None);
    assert_eq!(items.len(), 1);
    assert_eq!(items[0].name, format!(".{}.json", agent()));
    assert!(items[0].parse_error.as_deref().unwrap().starts_with("invalid JSON: "));
}

#[test]
fn unreadable_skill_is_a_row_of_its_own() {
    let mut h = home();
    let mut f = file("s", "");
    f.text = Err("denied".into());
    h.agent.skills.push(f);
    let items = load_inventory_at(&h, None);
    assert_eq!(items[0].parse_error.as_deref(), Some("read failed: denied"));
}

#[test]
fn empty_home_yields_empty_not_error() {
    assert!(load_inventory_at(&home(), None).is_empty());
}

#[test]
fn plugin_toggle_argv_maps_scope_and_verb() {
    let on = plugin_toggle_argv("plugin:global:caveman@caveman", true).unwrap();
    assert_eq!(
        on,
        vec!["plugin", "enable", "caveman@caveman", "--scope", "user"]
    );
    let off = plugin_toggle_argv("plugin:project:foo@bar", false).unwrap();
    assert_eq!(off, vec!["plugin", "disable", "foo@bar", "--scope", "project"]);
}

#[test]
fn plugin_toggle_preview_is_human_readable() {
    let p = plugin_toggle_preview(&agent(), "plugin:global:caveman@caveman", false).unwrap();
    assert_eq!(p, format!("{} plugin disable caveman@caveman --scope user", agent()));
}

#[test]
fn plugin_toggle_rejects_injection_and_bad_ids() {
    assert!(plugin_toggle_argv("plugin:global:foo; rm -rf ~", true).is_err());
    assert!(plugin_toggle_argv("plugin:global:foo && bar", true).is_err());
    assert!(plugin_toggle_argv("plugin:global:foo`whoami`", true).is_err());
    assert!(plugin_toggle_argv("plugin:global:foo$(id)", true).is_err());
    assert!(plugin_toggle_argv("skill:global:brief", true).is_err());
    assert!(plugin_toggle_argv("plugin:weird:foo@bar", true).is_err());
    assert!(plugin_toggle_argv("plugin:global:", true).is_err());
}

#[test]
fn failed_toggle_says_what_was_printed() {
    assert_eq!(toggle_outcome("a", true, true, "", ""), Ok(()));
    assert_eq!(
        toggle_outcome("a", true, false, "out", " err \n").unwrap_err(),
        "a plugin enable failed: err"
    );
    assert_eq!(
        toggle_outcome("a", false, false, " out ", " ").unwrap_err(),
        "a plugin disable failed: out"
    );
}

#[test]
fn program_is_found_through_the_shell() {
    assert_eq!(agent_path("a", true, "/bin/a\n").unwrap(), "/bin/a");
    assert_eq!(agent_path("a", true, "\n").unwrap_err(), "a not found on the login-shell PATH");
    assert!(agent_path("a", false, "/bin/a\n").is_err());
}

#[test]
fn audit_matrix_effective_state_across_projects() {
    let mut h = home();
    h.agent.settings = Some(r#"{"enabledPlugins":{"caveman@caveman":true}}"#.into());
    h.config = Some(
        r#"{ "projects": { "/p/projB": { "mcpServers": { "db": { "command": "db" } } } } }"#.into(),
    );
    let mut a = project("/p/projA");
    a.agent.settings = Some(r#"{"enabledPlugins":{"caveman@caveman":false}}"#.into());
    let b = project("/p/projB");

    let m = compute_audit(&h, &[a, b]);
    assert_eq!(m.columns.len(), 2);
    assert_eq!(m.columns[0].label, "projA");
    assert_eq!(m.columns[1].label, "projB");

    let plugin = m.rows.iter().find(|r| r.name == "caveman").expect("plugin row");
    assert_eq!(plugin.cells, vec!["off", "on"]);

    let mcp = m.rows.iter().find(|r| r.name == "db").expect("mcp row");
    assert_eq!(mcp.cells, vec!["absent", "on"]);
}

#[test]
fn audit_matrix_empty_when_no_projects() {
    let mut h = home();
    h.agent.settings = Some(r#"{"enabledPlugins":{}}"#.into());
    let m = compute_audit(&h, &[]);
    assert!(m.columns.is_empty());
    assert!(m.rows.is_empty());
}

#[test]
fn every_audit_row_has_a_cell_for_each_column() {
    let mut h = home();
    h.agent.settings = Some("broken".into());
    h.config = Some(r#"{"mcpServers":{"x":{"command":"y"}}}"#.into());
    let mut a = project("/p/a");
    a.agent.settings = Some(r#"{"enabledPlugins":{"k@m":true}}"#.into());
    let m = compute_audit(&h, &[a, project("/p/b"), project("/p/c")]);
    assert!(!m.rows.is_empty());
    assert!(m.rows.iter().all(|r| r.cells.len() == 3));
}

#[test]
fn project_dot_mcp_file_is_read_only_pending() {
    let mut h = home();
    h.config = Some("{}".into());
    let mut p = project("/p/proj");
    p.mcp = Some(r#"{"mcpServers":{"shared":{"command":"shared-mcp"}}}"#.into());
    let items = load_inventory_at(&h, Some(&p));
    let it = find(&items, "mcp", "shared").expect("shared mcp from .mcp.json");
    assert!(!it.toggleable, ".mcp.json servers managed by accept/reject");
    assert!(it.detail.as_deref().unwrap().contains(".mcp.json"));
}

fn server(fields: Vec<(&str, Json)>) -> Json {
    Json::Object(fields.into_iter().map(|(k, v)| (k.to_string(), v)).collect())
}

#[test]
fn summary_counts_env_and_hides_it() {
    let env = |v: &str| server(vec![("A", Json::Str(v.into()))]);
    let one = server(vec![("command", Json::Str("x".into())), ("env", env("1"))]);
    let two = server(vec![("command", Json::Str("x".into())), ("env", env("2"))]);
    assert_eq!(mcp_command_summary(&one), mcp_command_summary(&two));
    assert_eq!(mcp_command_summary(&one), "x  (+1 env)");
}

#[test]
fn long_summary_is_cut_between_characters() {
    let url = "é".repeat(100);
    let s = mcp_command_summary(&server(vec![("url", Json::Str(url))]));
    assert!(s.len() <= 120);
    assert!(s.starts_with("éé"));
}

#[test]
fn installed_plugins_and_their_manifests() {
    let installs = plugin_installs(
        r#"{"plugins":{"a@m":[{"installPath":"/x/a"},{"installPath":"/x/b"}],"b@m":[]}}"#,
    );
    assert!(installs.iter().any(|(k, p)| k == "a@m" && p.starts_with("/x/")));
    assert!(plugin_installs("broken").is_empty());
    let descs = load_plugin_manifests(&[
        ("a@m".into(), r#"{"description":" what it does "}"#.into()),
        ("b@m".into(), "broken".into()),
    ]);
    assert_eq!(descs, vec![("a@m".to_string(), "what it does".to_string())]);
}

#[test]
fn project_root_is_the_nearest_marked_level() {
    let level = |p: &str, m: bool| (p.to_string(), m);
    let levels = [level("/a/b/c", false), level("/a/b", true), level("/a", true)];
    assert_eq!(resolve_project_root("/a/b/c", &levels), "/a/b");
    assert_eq!(resolve_project_root("/a/b/c", &levels[..1]), "/a/b/c");
    let mut deep: Vec<(String, bool)> = (0..8).map(|i| (format!("/{i}"), false)).collect();
    deep.push(level("/too-far", true));
    assert_eq!(resolve_project_root("/0", &deep), "/0");
}

#[test]
fn plugin_of_a_project_is_described_by_the_home_registry() {
    let mut h = home();
    h.manifests.push(("foo@m".into(), r#"{"description":"D"}"#.into()));
    h.agent.settings = Some(r#"{"enabledPlugins":{"foo@m":false}}"#.into());
    let mut p = project("/p");
    p.agent.settings = Some(r#"{"enabledPlugins":{"foo@m":true}}"#.into());
    let items = load_inventory_at(&h, Some(&p));
    for id in ["plugin:global:foo@m", "plugin:project:foo@m"] {
        assert_eq!(items.iter().find(|i| i.id == id).unwrap().desc, "D");
    }
}

#[test]
fn env_values_show_in_no_row() {
    let rows = |secret: &str| {
        let mut h = home();
        h.config = Some(format!(
            r#"{{"mcpServers":{{"a":{{"command":"c","env":{{"K":"{secret}"}}}}}},"projects":{{"/p":{{"mcpServers":{{"b":{{"url":"u","env":{{"L":"{secret}"}}}}}}}}}}}}"#
        ));
        let mut p = project("/p");
        p.mcp =
            Some(format!(r#"{{"mcpServers":{{"c":{{"command":"d","env":{{"M":"{secret}"}}}}}}}}"#));
        let items = load_inventory_at(&h, Some(&p));
        let shown: Vec<(String, Option<String>)> =
            items.into_iter().map(|i| (i.id, i.detail)).collect();
        shown
    };
    assert_eq!(rows("one"), rows("two"));
    assert_eq!(rows("one").len(), 3);
    assert_eq!(rows("one")[0].1.as_deref(), Some("c  (+1 env)"));
}
