use cc_cockpit::inventory::ListedFile;
use cc_cockpit::spinup::generate_spinup_prompt;
use cc_cockpit::spinup::spinup_preview_at;
use cc_cockpit::spinup::validate_roster_covers_workflow;
use cc_cockpit::spinup::workflow_roles;
use cc_cockpit::templates::load_templates_at;
use cc_cockpit::templates::CockpitFiles;
use cc_cockpit::yaml::find_key_colon;
use cc_cockpit::yaml::map_bool;
use cc_cockpit::yaml::map_get;
use cc_cockpit::yaml::map_str;
use cc_cockpit::yaml::parse_yaml;
use cc_cockpit::yaml::Yaml;

#[derive(Debug)]
enum Product {
    Claude,
}

fn model() -> String {
    format!("{:?}", Product::Claude).to_lowercase() + "-opus-4-8"
}

fn empty() -> CockpitFiles {
    CockpitFiles {
        agents_dir: "agents".into(),
        agents: vec![],
        teams: vec![],
        workflows: vec![],
    }
}

fn file(name: &str, text: &str) -> ListedFile {
    ListedFile { name: name.into(), path: format!("/t/{name}"), text: Ok(text.into()) }
}

#[test]
fn parses_nested_map_bool_and_model() {
    let y = parse_yaml(&format!(
        "name: dev-team\nroles:\n  dev:\n    agent: dev-agent\n    model: {}\n    worktree: true\n    mode: live\n",
        model()
    ))
    .unwrap();
    let m = y.as_map().unwrap();
    assert_eq!(map_str(m, "name").as_deref(), Some("dev-team"));
    let roles = map_get(m, "roles").unwrap().as_map().unwrap();
    let dev = map_get(roles, "dev").unwrap().as_map().unwrap();
    assert_eq!(map_str(dev, "agent").as_deref(), Some("dev-agent"));
    assert_eq!(map_str(dev, "model").as_deref(), Some(model().as_str()));
    assert_eq!(map_bool(dev, "worktree"), true);
    assert_eq!(map_str(dev, "mode").as_deref(), Some("live"));
}

#[test]
fn parses_seq_of_maps_and_flow_seq() {
    let y = parse_yaml(
        "phases:\n  - id: scope\n    role: product-owner\n    gate: user\n  - id: build\n    roles: [dev, frontend]\n    parallel: true\n",
    )
    .unwrap();
    let phases = y.as_map().unwrap();
    let seq = map_get(phases, "phases").unwrap().as_seq().unwrap();
    assert_eq!(seq.len(), 2);
    let p0 = seq[0].as_map().unwrap();
    assert_eq!(map_str(p0, "id").as_deref(), Some("scope"));
    assert_eq!(map_str(p0, "role").as_deref(), Some("product-owner"));
    assert_eq!(map_str(p0, "gate").as_deref(), Some("user"));
    let p1 = seq[1].as_map().unwrap();
    let roles = map_get(p1, "roles").unwrap().as_seq().unwrap();
    let names: Vec<&str> = roles.iter().filter_map(|r| r.as_str()).collect();
    assert_eq!(names, vec!["dev", "frontend"]);
    assert_eq!(map_bool(p1, "parallel"), true);
}

#[test]
fn folded_block_scalar_joins_with_spaces() {
    let y = parse_yaml("lead_hint: >\n  You are the lead.\n  Drive the team.\nname: x\n").unwrap();
    let m = y.as_map().unwrap();
    assert_eq!(
        map_str(m, "lead_hint").as_deref(),
        Some("You are the lead. Drive the team.")
    );
    assert_eq!(map_str(m, "name").as_deref(), Some("x"));
}

#[test]
fn tab_indentation_is_a_parse_error() {
    let err = parse_yaml("roles:\n\tdev:\n").unwrap_err();
    assert!(err.contains("tab"), "got: {err}");
}

#[test]
fn inline_comments_stripped_but_literal_hash_kept() {
    let y = parse_yaml(
        "name: dev-team   # the team\nmode: live  # watchable\ntag: \"a # b\"\nslug: c#d\nroles: [dev, qa]   # two\n",
    )
    .unwrap();
    let m = y.as_map().unwrap();
    assert_eq!(map_str(m, "name").as_deref(), Some("dev-team"));
    assert_eq!(map_str(m, "mode").as_deref(), Some("live"));
    assert_eq!(map_str(m, "tag").as_deref(), Some("a # b"));
    assert_eq!(map_str(m, "slug").as_deref(), Some("c#d"));
    let roles = map_get(m, "roles").unwrap().as_seq().unwrap();
    let names: Vec<&str> = roles.iter().filter_map(|r| r.as_str()).collect();
    assert_eq!(names, vec!["dev", "qa"]);
}

#[test]
fn colon_inside_flow_seq_not_split() {
    assert_eq!(find_key_colon("roles: [a, b]"), Some(5));
}

#[test]
fn blank_lines_and_comments_change_nothing() {
    let plain = parse_yaml("a: 1\nb:\n  c: 2\n").unwrap();
    let noisy = parse_yaml("# top\na: 1\n\n   # in between\nb:\n\n  c: 2   # two\n").unwrap();
    assert_eq!(format!("{plain:?}"), format!("{noisy:?}"));
}

#[test]
fn loads_roster_with_roles_and_resolves_known_agent() {
    let mut h = empty();
    h.agents.push("dev-agent.md".into());
    h.teams.push(file(
        "dev-team.yaml",
        "name: dev-team\ndescription: Standard build team.\nroles:\n  dev:\n    agent: dev-agent\n    worktree: true\n    mode: live\n  qa:\n    agent: qa-agent\n    mode: headless\n",
    ));
    let t = load_templates_at(h, None);
    assert_eq!(t.teams.len(), 1);
    let r = &t.teams[0];
    assert_eq!(r.id, "team:global:dev-team");
    assert_eq!(r.name, "dev-team");
    assert_eq!(r.scope, "global");
    assert!(r.parse_error.is_none());
    assert_eq!(r.roles.len(), 2);
    let dev = r.roles.iter().find(|x| x.role == "dev").unwrap();
    assert_eq!(dev.agent, "dev-agent");
    assert!(dev.worktree);
    assert_eq!(dev.mode, "live");
    assert!(!r.problems.iter().any(|p| p.contains("dev-agent")));
    assert_eq!(
        r.problems,
        vec!["role `qa`: agent `qa-agent` not found in agents (built-in?)"]
    );
}

#[test]
fn roster_bad_mode_is_a_problem_not_a_drop() {
    let mut h = empty();
    h.teams.push(file("t.yaml", "name: t\nroles:\n  x:\n    agent: dev-agent\n    mode: turbo\n"));
    let t = load_templates_at(h, None);
    let r = &t.teams[0];
    assert!(r.parse_error.is_none(), "bad mode must not blank the row");
    assert_eq!(r.roles.len(), 1);
    assert!(r.problems.iter().any(|p| p.contains("turbo")));
}

#[test]
fn malformed_yaml_becomes_parse_error_not_panic() {
    let mut h = empty();
    h.teams.push(file("bad.yaml", "roles:\n\tdev: x\n"));
    let t = load_templates_at(h, None);
    assert_eq!(t.teams.len(), 1);
    assert!(t.teams[0].parse_error.is_some());
    assert!(t.teams[0].parse_error.as_deref().unwrap().contains("tab"));
}

#[test]
fn loads_workflow_unifying_role_and_roles() {
    let mut h = empty();
    h.workflows.push(file(
        "ship-it.yaml",
        "name: ship-it\ndescription: Scope build qa.\nlead_hint: >\n  Drive the team\n  through the phases.\nphases:\n  - id: scope\n    role: product-owner\n    gate: user\n  - id: build\n    roles: [dev, frontend]\n    parallel: true\n",
    ));
    let t = load_templates_at(h, None);
    assert_eq!(t.workflows.len(), 1);
    let w = &t.workflows[0];
    assert_eq!(w.id, "workflow:global:ship-it");
    assert!(w.parse_error.is_none());
    assert_eq!(w.lead_hint.as_deref(), Some("Drive the team through the phases."));
    assert_eq!(w.phases.len(), 2);
    assert_eq!(w.phases[0].roles, vec!["product-owner"]);
    assert_eq!(w.phases[0].gate.as_deref(), Some("user"));
    assert_eq!(w.phases[1].roles, vec!["dev", "frontend"]);
    assert!(w.phases[1].parallel);
    assert!(w.phases[1].gate.is_none());
}

#[test]
fn workflow_phase_without_roles_is_a_problem() {
    let mut h = empty();
    h.workflows.push(file("w.yaml", "name: w\nphases:\n  - id: lonely\n"));
    let t = load_templates_at(h, None);
    let w = &t.workflows[0];
    assert!(w.parse_error.is_none());
    assert_eq!(w.phases.len(), 1);
    assert!(w.problems.iter().any(|p| p.contains("lonely")));
}

#[test]
fn project_scope_templates_load_alongside_global() {
    let mut h = empty();
    h.teams.push(file("g.yaml", "name: g\nroles:\n  a:\n    agent: dev-agent\n"));
    let mut p = empty();
    p.teams.push(file("p.yaml", "name: p\nroles:\n  b:\n    agent: dev-agent\n"));
    let t = load_templates_at(h, Some(p));
    let scopes: Vec<(&str, &str)> =
        t.teams.iter().map(|r| (r.name.as_str(), r.scope.as_str())).collect();
    assert!(scopes.contains(&("g", "global")));
    assert!(scopes.contains(&("p", "project")));
}

#[test]
fn empty_or_absent_dirs_yield_empty_not_error() {
    let t = load_templates_at(empty(), None);
    assert!(t.teams.is_empty());
    assert!(t.workflows.is_empty());
}

#[test]
fn files_are_listed_by_name_and_others_passed_over() {
    let mut h = empty();
    h.teams.push(file("b.yml", "name: b\nroles:\n"));
    h.teams.push(file("notes.md", "x"));
    h.teams.push(file("a.yaml", "name: a\n"));
    let t = load_templates_at(h, None);
    let names: Vec<&str> = t.teams.iter().map(|r| r.name.as_str()).collect();
    assert_eq!(names, vec!["a", "b"]);
    assert_eq!(t.teams[0].problems, vec!["no `roles:` block"]);
}

fn fixture() -> CockpitFiles {
    let mut h = empty();
    h.agents.push("dev-agent.md".into());
    h.teams.push(file(
        "dev-team.yaml",
        "name: dev-team\nroles:\n  product-owner:\n    agent: product-owner-agent\n  dev:\n    agent: dev-agent\n    worktree: true\n  qa:\n    agent: qa-agent\n    mode: headless\n",
    ));
    h.workflows.push(file(
        "ship-it.yaml",
        "name: ship-it\nlead_hint: >\n  Drive the team\n  through the phases.\nphases:\n  - id: scope\n    role: product-owner\n    gate: user\n  - id: build\n    roles: [dev]\n    parallel: true\n  - id: integrate\n    role: lead\n",
    ));
    h
}

#[test]
fn workflow_roles_excludes_lead_and_dedups() {
    let t = load_templates_at(fixture(), None);
    let w = &t.workflows[0];
    assert_eq!(workflow_roles(w), vec!["product-owner", "dev"]);
}

#[test]
fn coverage_passes_when_roster_covers_all_roles() {
    let t = load_templates_at(fixture(), None);
    let problems = validate_roster_covers_workflow(&t.teams[0], &t.workflows[0]);
    assert!(problems.is_empty(), "dev-team covers ship-it: {problems:?}");
}

#[test]
fn coverage_flags_missing_role() {
    let mut h = fixture();
    h.workflows.push(file(
        "needs-fe.yaml",
        "name: needs-fe\nphases:\n  - id: build\n    roles: [dev, frontend]\n",
    ));
    let t = load_templates_at(h, None);
    let wf = t.workflows.iter().find(|w| w.name == "needs-fe").unwrap();
    let problems = validate_roster_covers_workflow(&t.teams[0], wf);
    assert_eq!(problems.len(), 1);
    assert!(problems[0].contains("frontend"));
}

#[test]
fn generated_prompt_is_single_line_and_contains_substance() {
    let t = load_templates_at(fixture(), None);
    let p = generate_spinup_prompt(&t.teams[0], &t.workflows[0], "ship the\nnew dashboard");
    assert!(!p.contains('\n'), "prompt must be single-line (no premature submit)");
    assert!(p.contains("dev-team"));
    assert!(p.contains("Drive the team through the phases."));
    assert!(p.contains("dev = dev-agent [own git worktree]"));
    assert!(p.contains("qa = qa-agent [headless]"));
    assert!(p.contains("scope"));
    assert!(p.contains("[STOP for my approval]"));
    assert!(p.contains("[in parallel]"));
    assert!(p.contains("ship the new dashboard"));
}

#[test]
fn spinup_preview_end_to_end() {
    let pv = spinup_preview_at(
        fixture(),
        None,
        "team:global:dev-team",
        "workflow:global:ship-it",
        "do it",
    )
    .expect("preview ok");
    assert_eq!(pv.roster_name, "dev-team");
    assert_eq!(pv.workflow_name, "ship-it");
    assert!(pv.coverage_problems.is_empty());
    assert!(pv.prompt.contains("Task: do it."));

    let missing = spinup_preview_at(
        fixture(),
        None,
        "team:global:nope",
        "workflow:global:ship-it",
        "x",
    );
    assert!(missing.is_err());
}

fn one_entry(key: &str, text: &str) -> Yaml {
    Yaml::Mapping(vec![(key.to_string(), Yaml::Scalar(text.to_string()))])
}

#[test]
fn block_scalar_keeps_lines_that_begin_with_hash() {
    assert_eq!(
        parse_yaml("hint: |\n  # heading\n  body\n").unwrap(),
        one_entry("hint", "# heading\nbody")
    );
    assert_eq!(
        parse_yaml("hint: > # folded\n  a\n\n# no prose\n  # b\n").unwrap(),
        one_entry("hint", "a # b")
    );
    let y = parse_yaml("roles:\n  x: |\n    # p\n  # comment\n  y: q\n").unwrap();
    let m = y.as_map().unwrap();
    let roles = map_get(m, "roles").unwrap().as_map().unwrap();
    assert_eq!(map_str(roles, "x").as_deref(), Some("# p"));
    assert_eq!(map_str(roles, "y").as_deref(), Some("q"));
}

#[test]
fn block_scalar_loses_the_common_indentation_only() {
    assert_eq!(
        parse_yaml("hint: |\n    a\n      b\n    c\n").unwrap(),
        one_entry("hint", "a\n  b\nc")
    );
}

#[test]
fn prompt_stays_one_line_whatever_the_names_hold() {
    let mut h = empty();
    h.teams.push(file(
        "t.yaml",
        "name: |\n  two\n  lines\nroles:\n  dev:\n    agent: |\n      dev\n      agent\n    model: |\n      big\n      one\n",
    ));
    h.workflows.push(file(
        "w.yaml",
        "name: w\nphases:\n  -\n    id: |\n      build\n      it\n    role: |\n      dev\n      qa\n",
    ));
    let t = load_templates_at(h, None);
    let p = generate_spinup_prompt(&t.teams[0], &t.workflows[0], "a\r\nb");
    assert!(!p.contains('\n') && !p.contains('\r'));
    assert!(p.starts_with("You are the team lead for the \"two lines\" team. "));
    assert!(p.contains("dev = dev agent (model big one)"));
    assert!(p.contains("1) build it — dev qa"));
    assert!(p.contains("Task: a b. "));
}
