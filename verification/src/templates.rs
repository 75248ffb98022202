//! Team templates: rosters (who takes part) and workflows (what they do), read from YAML.
//!
//! A file that cannot be read or parsed is one row with a `parse_error`. A template that
//! parses but is not right in every respect is listed with its `problems`.
use crate::inventory;
use crate::inventory::ListedFile;
use crate::paths;
use crate::seqs;
use crate::sort;
use crate::text;
use crate::yaml;
use crate::yaml::Yaml;
use crate::yaml::YamlView;
use vstd::prelude::*;

verus! {

/// One role of a roster.
#[derive(Clone, Debug, PartialEq)]
pub struct RoleSpec {
    pub role: String,
    pub agent: String,
    pub model: Option<String>,
    pub worktree: bool,
    /// `live` or `headless`.
    pub mode: String,
}

/// A reusable team.
#[derive(Clone, Debug, PartialEq)]
pub struct Roster {
    /// `team:<scope>:<name>`.
    pub id: String,
    pub scope: String,
    pub name: String,
    pub description: String,
    pub path: String,
    pub roles: Vec<RoleSpec>,
    pub default_cwd: Option<String>,
    pub problems: Vec<String>,
    pub parse_error: Option<String>,
}

/// One phase of a workflow.
#[derive(Clone, Debug, PartialEq)]
pub struct PhaseSpec {
    pub id: String,
    pub roles: Vec<String>,
    pub parallel: bool,
    /// `user` where the lead stops and asks after the phase.
    pub gate: Option<String>,
}

/// A reusable workflow.
#[derive(Clone, Debug, PartialEq)]
pub struct Workflow {
    /// `workflow:<scope>:<name>`.
    pub id: String,
    pub scope: String,
    pub name: String,
    pub description: String,
    pub path: String,
    pub lead_hint: Option<String>,
    pub phases: Vec<PhaseSpec>,
    pub problems: Vec<String>,
    pub parse_error: Option<String>,
}

/// The templates of both kinds and scopes.
#[derive(Clone, Debug, PartialEq)]
pub struct CockpitTemplates {
    pub teams: Vec<Roster>,
    pub workflows: Vec<Workflow>,
}

/// What is shown before a team is launched.
#[derive(Clone, Debug, PartialEq)]
pub struct SpinupPreview {
    pub roster_name: String,
    pub workflow_name: String,
    pub prompt: String,
    /// The workflow roles that the roster lacks; a launch is blocked unless this is empty.
    pub coverage_problems: Vec<String>,
}

/// The template files of one scope.
pub struct CockpitFiles {
    /// What the directory of the agents is called in messages.
    pub agents_dir: String,
    /// The names of the files in the directory of the agents.
    pub agents: Vec<String>,
    /// The files in the directory of the teams.
    pub teams: Vec<ListedFile>,
    /// The files in the directory of the workflows.
    pub workflows: Vec<ListedFile>,
}

#[verifier::ext_equal]
pub struct RoleView {
    pub role: Seq<char>,
    pub agent: Seq<char>,
    pub model: Option<Seq<char>>,
    pub worktree: bool,
    pub mode: Seq<char>,
}

#[verifier::ext_equal]
pub struct RosterView {
    pub id: Seq<char>,
    pub scope: Seq<char>,
    pub name: Seq<char>,
    pub description: Seq<char>,
    pub path: Seq<char>,
    pub roles: Seq<RoleView>,
    pub default_cwd: Option<Seq<char>>,
    pub problems: Seq<Seq<char>>,
    pub parse_error: Option<Seq<char>>,
}

#[verifier::ext_equal]
pub struct PhaseView {
    pub id: Seq<char>,
    pub roles: Seq<Seq<char>>,
    pub parallel: bool,
    pub gate: Option<Seq<char>>,
}

#[verifier::ext_equal]
pub struct WorkflowView {
    pub id: Seq<char>,
    pub scope: Seq<char>,
    pub name: Seq<char>,
    pub description: Seq<char>,
    pub path: Seq<char>,
    pub lead_hint: Option<Seq<char>>,
    pub phases: Seq<PhaseView>,
    pub problems: Seq<Seq<char>>,
    pub parse_error: Option<Seq<char>>,
}

impl View for RoleSpec {
    type V = RoleView;

    open spec fn view(&self) -> RoleView {
        RoleView {
            role: self.role@,
            agent: self.agent@,
            model: seqs::opt_view(self.model),
            worktree: self.worktree,
            mode: self.mode@,
        }
    }
}

pub open spec fn role_views(v: Seq<RoleSpec>) -> Seq<RoleView> {
    v.map_values(|r: RoleSpec| r@)
}

impl View for Roster {
    type V = RosterView;

    open spec fn view(&self) -> RosterView {
        RosterView {
            id: self.id@,
            scope: self.scope@,
            name: self.name@,
            description: self.description@,
            path: self.path@,
            roles: role_views(self.roles@),
            default_cwd: seqs::opt_view(self.default_cwd),
            problems: seqs::views(self.problems@),
            parse_error: seqs::opt_view(self.parse_error),
        }
    }
}

pub open spec fn roster_views(v: Seq<Roster>) -> Seq<RosterView> {
    v.map_values(|r: Roster| r@)
}

impl View for PhaseSpec {
    type V = PhaseView;

    open spec fn view(&self) -> PhaseView {
        PhaseView {
            id: self.id@,
            roles: seqs::views(self.roles@),
            parallel: self.parallel,
            gate: seqs::opt_view(self.gate),
        }
    }
}

pub open spec fn phase_views(v: Seq<PhaseSpec>) -> Seq<PhaseView> {
    v.map_values(|p: PhaseSpec| p@)
}

impl View for Workflow {
    type V = WorkflowView;

    open spec fn view(&self) -> WorkflowView {
        WorkflowView {
            id: self.id@,
            scope: self.scope@,
            name: self.name@,
            description: self.description@,
            path: self.path@,
            lead_hint: seqs::opt_view(self.lead_hint),
            phases: phase_views(self.phases@),
            problems: seqs::views(self.problems@),
            parse_error: seqs::opt_view(self.parse_error),
        }
    }
}

pub open spec fn workflow_views(v: Seq<Workflow>) -> Seq<WorkflowView> {
    v.map_values(|w: Workflow| w@)
}

type YamlMap = Seq<(Seq<char>, YamlView)>;

// ── Rosters ─────────────────────────────────────────────────────────────────────────────

pub open spec fn or_text(o: Option<Seq<char>>, default: Seq<char>) -> Seq<char> {
    match o {
        Some(s) => s,
        None => default,
    }
}

/// What is wrong with the role `name` of a roster.
pub open spec fn role_problems(
    name: Seq<char>,
    node: YamlView,
    dir: Seq<char>,
    known: Seq<Seq<char>>,
) -> Seq<Seq<char>> {
    match node.as_map() {
        None => seq!["role `"@ + name + "` is not a mapping"@],
        Some(map) => {
            let agent = or_text(yaml::entry_str(map, "agent"@), Seq::empty());
            let mode = or_text(yaml::entry_str(map, "mode"@), "live"@);
            (if agent.len() == 0 {
                seq!["role `"@ + name + "` has no `agent`"@]
            } else if !known.contains(agent) {
                seq![
                    "role `"@ + name + "`: agent `"@ + agent + "` not found in "@ + dir
                        + " (built-in?)"@,
                ]
            } else {
                Seq::empty()
            }) + (if mode != "live"@ && mode != "headless"@ {
                seq!["role `"@ + name + "`: mode `"@ + mode + "` not live|headless"@]
            } else {
                Seq::empty()
            })
        },
    }
}

/// The role `name` of a roster, where its node is a mapping.
pub open spec fn role_of(name: Seq<char>, node: YamlView) -> Option<RoleView> {
    match node.as_map() {
        None => None,
        Some(map) => Some(
            RoleView {
                role: name,
                agent: or_text(yaml::entry_str(map, "agent"@), Seq::empty()),
                model: yaml::entry_str(map, "model"@),
                worktree: yaml::entry_bool(map, "worktree"@),
                mode: or_text(yaml::entry_str(map, "mode"@), "live"@),
            },
        ),
    }
}

pub open spec fn roles_of(entries: YamlMap) -> Seq<RoleView>
    decreases entries.len(),
{
    if entries.len() == 0 {
        Seq::empty()
    } else {
        let head = roles_of(entries.drop_last());
        match role_of(entries.last().0, entries.last().1) {
            Some(r) => head.push(r),
            None => head,
        }
    }
}

pub open spec fn all_role_problems(
    entries: YamlMap,
    dir: Seq<char>,
    known: Seq<Seq<char>>,
) -> Seq<Seq<char>>
    decreases entries.len(),
{
    if entries.len() == 0 {
        Seq::empty()
    } else {
        all_role_problems(entries.drop_last(), dir, known) + role_problems(
            entries.last().0,
            entries.last().1,
            dir,
            known,
        )
    }
}

/// The roles that the `roles:` entry of a roster lists.
pub open spec fn roster_roles(map: YamlMap) -> Seq<RoleView> {
    match yaml::entry(map, "roles"@) {
        None => Seq::empty(),
        Some(node) => match node.as_map() {
            None => Seq::empty(),
            Some(entries) => roles_of(entries),
        },
    }
}

/// What is wrong with the `roles:` entry of a roster.
pub open spec fn roster_problems(map: YamlMap, dir: Seq<char>, known: Seq<Seq<char>>) -> Seq<
    Seq<char>,
> {
    match yaml::entry(map, "roles"@) {
        None => seq!["no `roles:` block"@],
        Some(node) => match node.as_map() {
            None => seq!["`roles:` is not a mapping"@],
            Some(entries) => if entries.len() == 0 {
                seq!["`roles:` is empty"@]
            } else {
                all_role_problems(entries, dir, known)
            },
        },
    }
}

/// `<prefix>:<scope>:<name>`.
pub open spec fn template_id(kind: Seq<char>, scope: Seq<char>, name: Seq<char>) -> Seq<char> {
    inventory::item_id(kind, scope, name)
}

/// The roster that `base` becomes once its file has been parsed to `node`.
pub open spec fn roster_of(
    node: YamlView,
    scope: Seq<char>,
    dir: Seq<char>,
    known: Seq<Seq<char>>,
    base: RosterView,
) -> RosterView {
    match node.as_map() {
        None => RosterView { parse_error: Some("top level is not a mapping"@), ..base },
        Some(map) => {
            let named = yaml::entry_str(map, "name"@);
            RosterView {
                id: match named {
                    Some(n) => template_id("team"@, scope, n),
                    None => base.id,
                },
                name: or_text(named, base.name),
                description: or_text(yaml::entry_str(map, "description"@), Seq::empty()),
                default_cwd: yaml::entry_str(map, "default_cwd"@),
                roles: base.roles + roster_roles(map),
                problems: base.problems + roster_problems(map, dir, known),
                ..base
            }
        },
    }
}

/// The roster of a file before its text is looked at.
pub open spec fn blank_roster(scope: Seq<char>, stem: Seq<char>, path: Seq<char>) -> RosterView {
    RosterView {
        id: template_id("team"@, scope, stem),
        scope,
        name: stem,
        description: Seq::empty(),
        path,
        roles: Seq::empty(),
        default_cwd: None,
        problems: Seq::empty(),
        parse_error: None,
    }
}

pub open spec fn roster_row(
    f: ListedFile,
    stem: Seq<char>,
    scope: Seq<char>,
    dir: Seq<char>,
    known: Seq<Seq<char>>,
) -> RosterView {
    let base = blank_roster(scope, stem, f.path@);
    match f.text {
        Err(e) => RosterView { parse_error: Some("read failed: "@ + e@), ..base },
        Ok(t) => match yaml::yaml_of(t@) {
            Err(e) => RosterView { parse_error: Some("YAML parse error: "@ + e), ..base },
            Ok(node) => roster_of(node, scope, dir, known, base),
        },
    }
}

/// The file name before `.yaml` or `.yml`.
pub open spec fn yaml_stem_of(name: Seq<char>) -> Option<Seq<char>> {
    match paths::stem_with_extension(name, "yaml"@) {
        Some(s) => Some(s),
        None => paths::stem_with_extension(name, "yml"@),
    }
}

/// The order of file names.
pub open spec fn by_name() -> spec_fn(ListedFile, ListedFile) -> bool {
    |a: ListedFile, b: ListedFile| seqs::text_le(a.name@, b.name@)
}

/// The rows of those of `files` that are YAML files, in their order.
pub open spec fn roster_rows(
    files: Seq<ListedFile>,
    scope: Seq<char>,
    dir: Seq<char>,
    known: Seq<Seq<char>>,
) -> Seq<RosterView>
    decreases files.len(),
{
    if files.len() == 0 {
        Seq::empty()
    } else {
        let head = roster_rows(files.drop_last(), scope, dir, known);
        match yaml_stem_of(files.last().name@) {
            Some(stem) => head.push(roster_row(files.last(), stem, scope, dir, known)),
            None => head,
        }
    }
}

fn message(a: &str, b: &str, c: &str) -> (r: String)
    ensures
        r@ == a@ + b@ + c@,
{
    let mut s = a.to_owned();
    s.append(b);
    s.append(c);
    s
}

fn message5(a: &str, b: &str, c: &str, d: &str, e: &str) -> (r: String)
    ensures
        r@ == a@ + b@ + c@ + d@ + e@,
{
    let mut s = message(a, b, c);
    s.append(d);
    s.append(e);
    s
}

fn or_string(o: Option<String>, default: &str) -> (r: String)
    ensures
        r@ == or_text(seqs::opt_view(o), default@),
{
    match o {
        Some(s) => s,
        None => default.to_owned(),
    }
}

fn or_blank(o: Option<String>) -> (r: String)
    ensures
        r@ == or_text(seqs::opt_view(o), Seq::empty()),
{
    match o {
        Some(s) => s,
        None => String::new(),
    }
}

/// Reads the role `name`: adds what is wrong with it to `problems`.
fn read_role(
    name: &str,
    node: &Yaml,
    dir: &str,
    known: &[String],
    problems: &mut Vec<String>,
) -> (r: Option<RoleSpec>)
    ensures
        (match r {
            Some(s) => role_of(name@, node@) == Some(s@),
            None => role_of(name@, node@) is None,
        }),
        seqs::views(final(problems)@) == seqs::views(old(problems)@) + role_problems(
            name@,
            node@,
            dir@,
            seqs::views(known@),
        ),
{
    let ghost before = seqs::views(problems@);
    match node.as_map() {
        None => {
            let m = message("role `", name, "` is not a mapping");
            problems.push(m);
            assert(seqs::views(problems@) =~= before + seq![m@]);
            None
        },
        Some(map) => {
            let agent = or_blank(yaml::map_str(map, "agent"));
            let mode = or_string(yaml::map_str(map, "mode"), "live");
            let ghost first = if agent@.len() == 0 {
                seq!["role `"@ + name@ + "` has no `agent`"@]
            } else if !seqs::views(known@).contains(agent@) {
                seq![
                    "role `"@ + name@ + "`: agent `"@ + agent@ + "` not found in "@ + dir@
                        + " (built-in?)"@,
                ]
            } else {
                Seq::empty()
            };
            if text::chars_of(agent.as_str()).len() == 0 {
                problems.push(message("role `", name, "` has no `agent`"));
            } else if !text::has_string(known, agent.as_str()) {
                let mut m = message5("role `", name, "`: agent `", agent.as_str(), "` not found in ");
                m.append(dir);
                m.append(" (built-in?)");
                problems.push(m);
            }
            assert(seqs::views(problems@) =~= before + first);
            if !text::same(mode.as_str(), "live") && !text::same(mode.as_str(), "headless") {
                let m = message5("role `", name, "`: mode `", mode.as_str(), "` not live|headless");
                problems.push(m);
                assert(seqs::views(problems@) =~= before + (first + seq![m@]));
            } else {
                assert(first + Seq::<Seq<char>>::empty() =~= first);
            }
            Some(
                RoleSpec {
                    role: name.to_owned(),
                    agent,
                    model: yaml::map_str(map, "model"),
                    worktree: yaml::map_bool(map, "worktree"),
                    mode,
                },
            )
        },
    }
}

/// Fills `r` from the parsed text of its file. `known` are the agents in the directory
/// `dir`; one that is not among them is a problem.
pub fn build_roster(node: &Yaml, scope: &str, dir: &str, known: &[String], r: &mut Roster)
    ensures
        final(r)@ == roster_of(node@, scope@, dir@, seqs::views(known@), old(r)@),
{
    let ghost base = r@;
    match node.as_map() {
        None => {
            r.parse_error = Some("top level is not a mapping".to_owned());
        },
        Some(map) => {
            let ghost m = yaml::entries_view(map@);
            if let Some(n) = yaml::map_str(map, "name") {
                r.id = inventory::row_id("team", scope, n.as_str());
                r.name = n;
            }
            r.description = or_blank(yaml::map_str(map, "description"));
            r.default_cwd = yaml::map_str(map, "default_cwd");
            assert(base.roles + Seq::<RoleView>::empty() =~= base.roles);
            match yaml::map_get(map, "roles") {
                None => {
                    r.problems.push("no `roles:` block".to_owned());
                    assert(seqs::views(r.problems@) =~= base.problems + seq!["no `roles:` block"@]);
                },
                Some(roles_node) => match roles_node.as_map() {
                    None => {
                        r.problems.push("`roles:` is not a mapping".to_owned());
                        assert(seqs::views(r.problems@) =~= base.problems + seq![
                            "`roles:` is not a mapping"@,
                        ]);
                    },
                    Some(roles) => {
                        let ghost entries = yaml::entries_view(roles@);
                        let ghost names = seqs::views(known@);
                        proof {
                            yaml::entries_view_at(roles@);
                        }
                        if roles.len() == 0 {
                            r.problems.push("`roles:` is empty".to_owned());
                            assert(seqs::views(r.problems@) =~= base.problems + seq![
                                "`roles:` is empty"@,
                            ]);
                        }
                        let ghost start = r@;
                        let mut i: usize = 0;
                        proof {
                            assert(entries.take(0) =~= Seq::empty());
                            assert(start.problems + Seq::<Seq<char>>::empty() =~= start.problems);
                        }
                        while i < roles.len()
                            invariant
                                i <= roles@.len(),
                                names == seqs::views(known@),
                                entries.len() == roles@.len(),
                                forall|j: int|
                                    0 <= j < roles@.len() ==> #[trigger] entries[j] == (
                                        roles@[j].0@,
                                        roles@[j].1@,
                                    ),
                                r@ == (RosterView {
                                    roles: start.roles + roles_of(entries.take(i as int)),
                                    problems: start.problems + all_role_problems(
                                        entries.take(i as int),
                                        dir@,
                                        names,
                                    ),
                                    ..start
                                }),
                            decreases roles@.len() - i,
                        {
                            let ghost here = entries.take(i as int);
                            let ghost done = r@;
                            let ghost roles_before = r.roles@;
                            proof {
                                assert(entries.take(i + 1).drop_last() =~= here);
                                assert(entries.take(i + 1).last() == entries[i as int]);
                            }
                            let role = read_role(
                                roles[i].0.as_str(),
                                &roles[i].1,
                                dir,
                                known,
                                &mut r.problems,
                            );
                            proof {
                                let p = role_problems(
                                    roles@[i as int].0@,
                                    roles@[i as int].1@,
                                    dir@,
                                    names,
                                );
                                assert((start.problems + all_role_problems(here, dir@, names)) + p
                                    =~= start.problems + (all_role_problems(here, dir@, names) + p));
                            }
                            if let Some(spec_) = role {
                                r.roles.push(spec_);
                                proof {
                                    assert(role_views(r.roles@) =~= role_views(roles_before).push(
                                        spec_@,
                                    ));
                                    assert((start.roles + roles_of(here)).push(spec_@)
                                        =~= start.roles + roles_of(here).push(spec_@));
                                }
                            }
                            i += 1;
                        }
                        assert(entries.take(roles@.len() as int) =~= entries);
                        assert(start.roles =~= base.roles);
                    },
                },
            }
        },
    }
}

/// The file name before `.yaml` or `.yml`.
pub fn yaml_stem(name: &str) -> (r: Option<String>)
    ensures
        seqs::opt_view(r) == yaml_stem_of(name@),
{
    match paths::file_stem(name, "yaml") {
        Some(s) => Some(s),
        None => paths::file_stem(name, "yml"),
    }
}

fn read_roster(f: &ListedFile, stem: &str, scope: &str, dir: &str, known: &[String]) -> (r: Roster)
    ensures
        r@ == roster_row(*f, stem@, scope@, dir@, seqs::views(known@)),
{
    let mut r = Roster {
        id: inventory::row_id("team", scope, stem),
        scope: scope.to_owned(),
        name: stem.to_owned(),
        description: String::new(),
        path: f.path.clone(),
        roles: Vec::new(),
        default_cwd: None,
        problems: Vec::new(),
        parse_error: None,
    };
    assert(r@ =~= blank_roster(scope@, stem@, f.path@));
    match &f.text {
        Err(e) => {
            r.parse_error = Some(inventory::prefixed("read failed: ", e.as_str()));
        },
        Ok(t) => match yaml::parse_yaml(t.as_str()) {
            Err(e) => {
                r.parse_error = Some(inventory::prefixed("YAML parse error: ", e.as_str()));
            },
            Ok(node) => build_roster(&node, scope, dir, known, &mut r),
        },
    }
    r
}

/// Adds a row for each YAML file of `files`.
pub fn read_rosters(
    files: &[ListedFile],
    scope: &str,
    dir: &str,
    known: &[String],
    out: &mut Vec<Roster>,
)
    ensures
        roster_views(final(out)@) == roster_views(old(out)@) + roster_rows(
            files@,
            scope@,
            dir@,
            seqs::views(known@),
        ),
{
    let ghost before = roster_views(out@);
    let ghost names = seqs::views(known@);
    let mut i: usize = 0;
    assert(files@.take(0) =~= Seq::empty());
    assert(before + Seq::<RosterView>::empty() =~= before);
    while i < files.len()
        invariant
            i <= files@.len(),
            names == seqs::views(known@),
            roster_views(out@) == before + roster_rows(files@.take(i as int), scope@, dir@, names),
        decreases files@.len() - i,
    {
        let ghost prior = out@;
        assert(files@.take(i + 1).drop_last() =~= files@.take(i as int));
        if let Some(stem) = yaml_stem(files[i].name.as_str()) {
            let row = read_roster(&files[i], stem.as_str(), scope, dir, known);
            out.push(row);
            assert(roster_views(out@) =~= roster_views(prior).push(row@));
        }
        i += 1;
    }
    assert(files@.take(files@.len() as int) =~= files@);
}

// ── Workflows ───────────────────────────────────────────────────────────────────────────

/// The scalars among `nodes`.
pub open spec fn scalar_texts(nodes: Seq<YamlView>) -> Seq<Seq<char>>
    decreases nodes.len(),
{
    if nodes.len() == 0 {
        Seq::empty()
    } else {
        let head = scalar_texts(nodes.drop_last());
        match nodes.last().as_str() {
            Some(s) => head.push(s),
            None => head,
        }
    }
}

/// The roles that a phase names: its `role`, then those of `roles`, a list or a scalar.
pub open spec fn phase_roles(map: YamlMap) -> Seq<Seq<char>> {
    (match yaml::entry_str(map, "role"@) {
        Some(r) => seq![r],
        None => Seq::empty(),
    }) + (match yaml::entry(map, "roles"@) {
        None => Seq::empty(),
        Some(node) => match node.as_seq() {
            Some(nodes) => scalar_texts(nodes),
            None => match node.as_str() {
                Some(s) => seq![s],
                None => Seq::empty(),
            },
        },
    })
}

/// What is wrong with the phase at position `i`.
pub open spec fn phase_problems(i: nat, node: YamlView) -> Seq<Seq<char>> {
    match node.as_map() {
        None => seq!["phase #"@ + seqs::decimal(i + 1) + " is not a mapping"@],
        Some(map) => {
            let id = or_text(yaml::entry_str(map, "id"@), Seq::empty());
            (if id.len() == 0 {
                seq!["phase #"@ + seqs::decimal(i + 1) + " has no `id`"@]
            } else {
                Seq::empty()
            }) + (if phase_roles(map).len() == 0 {
                seq![
                    "phase `"@ + (if id.len() == 0 {
                        "?"@
                    } else {
                        id
                    }) + "` names no role(s)"@,
                ]
            } else {
                Seq::empty()
            }) + (match yaml::entry_str(map, "gate"@) {
                Some(g) => if g != "user"@ {
                    seq!["phase `"@ + id + "`: gate `"@ + g + "` not `user`"@]
                } else {
                    Seq::empty()
                },
                None => Seq::empty(),
            })
        },
    }
}

/// The phase that `node` writes, where it is a mapping.
pub open spec fn phase_of(node: YamlView) -> Option<PhaseView> {
    match node.as_map() {
        None => None,
        Some(map) => Some(
            PhaseView {
                id: or_text(yaml::entry_str(map, "id"@), Seq::empty()),
                roles: phase_roles(map),
                parallel: yaml::entry_bool(map, "parallel"@),
                gate: yaml::entry_str(map, "gate"@),
            },
        ),
    }
}

pub open spec fn phases_of(nodes: Seq<YamlView>) -> Seq<PhaseView>
    decreases nodes.len(),
{
    if nodes.len() == 0 {
        Seq::empty()
    } else {
        let head = phases_of(nodes.drop_last());
        match phase_of(nodes.last()) {
            Some(p) => head.push(p),
            None => head,
        }
    }
}

pub open spec fn all_phase_problems(nodes: Seq<YamlView>) -> Seq<Seq<char>>
    decreases nodes.len(),
{
    if nodes.len() == 0 {
        Seq::empty()
    } else {
        all_phase_problems(nodes.drop_last()) + phase_problems(
            (nodes.len() - 1) as nat,
            nodes.last(),
        )
    }
}

/// The phases that the `phases:` entry of a workflow lists.
pub open spec fn workflow_phases(map: YamlMap) -> Seq<PhaseView> {
    match yaml::entry(map, "phases"@) {
        None => Seq::empty(),
        Some(node) => match node.as_seq() {
            None => Seq::empty(),
            Some(nodes) => phases_of(nodes),
        },
    }
}

/// What is wrong with the `phases:` entry of a workflow.
pub open spec fn workflow_problems(map: YamlMap) -> Seq<Seq<char>> {
    match yaml::entry(map, "phases"@) {
        None => seq!["no `phases:` block"@],
        Some(node) => match node.as_seq() {
            None => seq!["`phases:` is not a sequence"@],
            Some(nodes) => if nodes.len() == 0 {
                seq!["`phases:` is empty"@]
            } else {
                all_phase_problems(nodes)
            },
        },
    }
}

/// The workflow that `base` becomes once its file has been parsed to `node`.
pub open spec fn workflow_of(node: YamlView, scope: Seq<char>, base: WorkflowView) -> WorkflowView {
    match node.as_map() {
        None => WorkflowView { parse_error: Some("top level is not a mapping"@), ..base },
        Some(map) => {
            let named = yaml::entry_str(map, "name"@);
            WorkflowView {
                id: match named {
                    Some(n) => template_id("workflow"@, scope, n),
                    None => base.id,
                },
                name: or_text(named, base.name),
                description: or_text(yaml::entry_str(map, "description"@), Seq::empty()),
                lead_hint: yaml::entry_str(map, "lead_hint"@),
                phases: base.phases + workflow_phases(map),
                problems: base.problems + workflow_problems(map),
                ..base
            }
        },
    }
}

/// The workflow of a file before its text is looked at.
pub open spec fn blank_workflow(scope: Seq<char>, stem: Seq<char>, path: Seq<char>) -> WorkflowView {
    WorkflowView {
        id: template_id("workflow"@, scope, stem),
        scope,
        name: stem,
        description: Seq::empty(),
        path,
        lead_hint: None,
        phases: Seq::empty(),
        problems: Seq::empty(),
        parse_error: None,
    }
}

pub open spec fn workflow_row(f: ListedFile, stem: Seq<char>, scope: Seq<char>) -> WorkflowView {
    let base = blank_workflow(scope, stem, f.path@);
    match f.text {
        Err(e) => WorkflowView { parse_error: Some("read failed: "@ + e@), ..base },
        Ok(t) => match yaml::yaml_of(t@) {
            Err(e) => WorkflowView { parse_error: Some("YAML parse error: "@ + e), ..base },
            Ok(node) => workflow_of(node, scope, base),
        },
    }
}

/// The rows of those of `files` that are YAML files, in their order.
pub open spec fn workflow_rows(files: Seq<ListedFile>, scope: Seq<char>) -> Seq<WorkflowView>
    decreases files.len(),
{
    if files.len() == 0 {
        Seq::empty()
    } else {
        let head = workflow_rows(files.drop_last(), scope);
        match yaml_stem_of(files.last().name@) {
            Some(stem) => head.push(workflow_row(files.last(), stem, scope)),
            None => head,
        }
    }
}

fn read_phase_roles(map: &[(String, Yaml)]) -> (r: Vec<String>)
    ensures
        seqs::views(r@) == phase_roles(yaml::entries_view(map@)),
{
    let mut roles: Vec<String> = Vec::new();
    assert(seqs::views(roles@) =~= Seq::empty());
    if let Some(single) = yaml::map_str(map, "role") {
        roles.push(single);
        assert(seqs::views(roles@) =~= seq![single@]);
    }
    let ghost first = seqs::views(roles@);
    assert(first + Seq::<Seq<char>>::empty() =~= first);
    if let Some(node) = yaml::map_get(map, "roles") {
        match node.as_seq() {
            Some(nodes) => {
                let ghost all = yaml::nodes_view(nodes@);
                let mut i: usize = 0;
                proof {
                    yaml::nodes_view_at(nodes@);
                    assert(all.take(0) =~= Seq::empty());
                }
                while i < nodes.len()
                    invariant
                        i <= nodes@.len(),
                        all.len() == nodes@.len(),
                        forall|j: int| 0 <= j < nodes@.len() ==> #[trigger] all[j] == nodes@[j]@,
                        seqs::views(roles@) == first + scalar_texts(all.take(i as int)),
                    decreases nodes@.len() - i,
                {
                    let ghost before = roles@;
                    proof {
                        assert(all.take(i + 1).drop_last() =~= all.take(i as int));
                        assert(all.take(i + 1).last() == all[i as int]);
                    }
                    if let Some(s) = nodes[i].as_str() {
                        roles.push(s.to_owned());
                        assert(seqs::views(roles@) =~= seqs::views(before).push(s@));
                    }
                    i += 1;
                }
                assert(all.take(nodes@.len() as int) =~= all);
            },
            None => {
                if let Some(s) = node.as_str() {
                    let ghost before = roles@;
                    roles.push(s.to_owned());
                    assert(seqs::views(roles@) =~= first + seq![s@]);
                }
            },
        }
    }
    roles
}

/// Reads the phase at position `i`: adds what is wrong with it to `problems`.
fn read_phase(i: usize, node: &Yaml, problems: &mut Vec<String>) -> (r: Option<PhaseSpec>)
    requires
        i < usize::MAX,
    ensures
        (match r {
            Some(p) => phase_of(node@) == Some(p@),
            None => phase_of(node@) is None,
        }),
        seqs::views(final(problems)@) == seqs::views(old(problems)@) + phase_problems(
            i as nat,
            node@,
        ),
{
    let ghost before = seqs::views(problems@);
    let number = text::decimal(i as u64 + 1);
    match node.as_map() {
        None => {
            let m = message("phase #", number.as_str(), " is not a mapping");
            problems.push(m);
            assert(seqs::views(problems@) =~= before + seq![m@]);
            None
        },
        Some(map) => {
            let ghost em = yaml::entries_view(map@);
            let id = or_blank(yaml::map_str(map, "id"));
            let unnamed = text::chars_of(id.as_str()).len() == 0;
            let ghost p1: Seq<Seq<char>> = if id@.len() == 0 {
                seq!["phase #"@ + number@ + " has no `id`"@]
            } else {
                Seq::empty()
            };
            if unnamed {
                problems.push(message("phase #", number.as_str(), " has no `id`"));
            }
            assert(seqs::views(problems@) =~= before + p1);
            let roles = read_phase_roles(map);
            let ghost p2: Seq<Seq<char>> = if roles@.len() == 0 {
                seq![
                    "phase `"@ + (if id@.len() == 0 {
                        "?"@
                    } else {
                        id@
                    }) + "` names no role(s)"@,
                ]
            } else {
                Seq::empty()
            };
            if roles.len() == 0 {
                if unnamed {
                    problems.push(message("phase `", "?", "` names no role(s)"));
                } else {
                    problems.push(message("phase `", id.as_str(), "` names no role(s)"));
                }
            }
            assert(seqs::views(problems@) =~= before + (p1 + p2));
            let gate = yaml::map_str(map, "gate");
            let ghost p3: Seq<Seq<char>> = match seqs::opt_view(gate) {
                Some(g) => if g != "user"@ {
                    seq!["phase `"@ + id@ + "`: gate `"@ + g + "` not `user`"@]
                } else {
                    Seq::empty()
                },
                None => Seq::empty(),
            };
            if let Some(g) = &gate {
                if !text::same(g.as_str(), "user") {
                    problems.push(
                        message5("phase `", id.as_str(), "`: gate `", g.as_str(), "` not `user`"),
                    );
                }
            }
            assert(seqs::views(problems@) =~= before + (p1 + p2 + p3));
            assert(seqs::views(roles@).len() == roles@.len());
            Some(PhaseSpec { id, roles, parallel: yaml::map_bool(map, "parallel"), gate })
        },
    }
}

/// Fills `w` from the parsed text of its file.
pub fn build_workflow(node: &Yaml, scope: &str, w: &mut Workflow)
    ensures
        final(w)@ == workflow_of(node@, scope@, old(w)@),
{
    let ghost base = w@;
    match node.as_map() {
        None => {
            w.parse_error = Some("top level is not a mapping".to_owned());
        },
        Some(map) => {
            if let Some(n) = yaml::map_str(map, "name") {
                w.id = inventory::row_id("workflow", scope, n.as_str());
                w.name = n;
            }
            w.description = or_blank(yaml::map_str(map, "description"));
            w.lead_hint = yaml::map_str(map, "lead_hint");
            assert(base.phases + Seq::<PhaseView>::empty() =~= base.phases);
            match yaml::map_get(map, "phases") {
                None => {
                    w.problems.push("no `phases:` block".to_owned());
                    assert(seqs::views(w.problems@) =~= base.problems + seq!["no `phases:` block"@]);
                },
                Some(phases_node) => match phases_node.as_seq() {
                    None => {
                        w.problems.push("`phases:` is not a sequence".to_owned());
                        assert(seqs::views(w.problems@) =~= base.problems + seq![
                            "`phases:` is not a sequence"@,
                        ]);
                    },
                    Some(nodes) => {
                        let ghost all = yaml::nodes_view(nodes@);
                        proof {
                            yaml::nodes_view_at(nodes@);
                        }
                        if nodes.len() == 0 {
                            w.problems.push("`phases:` is empty".to_owned());
                            assert(seqs::views(w.problems@) =~= base.problems + seq![
                                "`phases:` is empty"@,
                            ]);
                        }
                        let ghost start = w@;
                        let mut i: usize = 0;
                        proof {
                            assert(all.take(0) =~= Seq::empty());
                            assert(start.problems + Seq::<Seq<char>>::empty() =~= start.problems);
                        }
                        while i < nodes.len()
                            invariant
                                i <= nodes@.len(),
                                all.len() == nodes@.len(),
                                forall|j: int|
                                    0 <= j < nodes@.len() ==> #[trigger] all[j] == nodes@[j]@,
                                w@ == (WorkflowView {
                                    phases: start.phases + phases_of(all.take(i as int)),
                                    problems: start.problems + all_phase_problems(
                                        all.take(i as int),
                                    ),
                                    ..start
                                }),
                            decreases nodes@.len() - i,
                        {
                            let ghost here = all.take(i as int);
                            let ghost phases_before = w.phases@;
                            proof {
                                assert(all.take(i + 1).drop_last() =~= here);
                                assert(all.take(i + 1).last() == all[i as int]);
                            }
                            let phase = read_phase(i, &nodes[i], &mut w.problems);
                            proof {
                                let p = phase_problems(i as nat, all[i as int]);
                                assert((start.problems + all_phase_problems(here)) + p
                                    =~= start.problems + (all_phase_problems(here) + p));
                            }
                            if let Some(ph) = phase {
                                w.phases.push(ph);
                                proof {
                                    assert(phase_views(w.phases@) =~= phase_views(
                                        phases_before,
                                    ).push(ph@));
                                    assert((start.phases + phases_of(here)).push(ph@)
                                        =~= start.phases + phases_of(here).push(ph@));
                                }
                            }
                            i += 1;
                        }
                        assert(all.take(nodes@.len() as int) =~= all);
                    },
                },
            }
        },
    }
}

fn read_workflow(f: &ListedFile, stem: &str, scope: &str) -> (r: Workflow)
    ensures
        r@ == workflow_row(*f, stem@, scope@),
{
    let mut w = Workflow {
        id: inventory::row_id("workflow", scope, stem),
        scope: scope.to_owned(),
        name: stem.to_owned(),
        description: String::new(),
        path: f.path.clone(),
        lead_hint: None,
        phases: Vec::new(),
        problems: Vec::new(),
        parse_error: None,
    };
    assert(w@ =~= blank_workflow(scope@, stem@, f.path@));
    match &f.text {
        Err(e) => {
            w.parse_error = Some(inventory::prefixed("read failed: ", e.as_str()));
        },
        Ok(t) => match yaml::parse_yaml(t.as_str()) {
            Err(e) => {
                w.parse_error = Some(inventory::prefixed("YAML parse error: ", e.as_str()));
            },
            Ok(node) => build_workflow(&node, scope, &mut w),
        },
    }
    w
}

/// Adds a row for each YAML file of `files`.
pub fn read_workflows(files: &[ListedFile], scope: &str, out: &mut Vec<Workflow>)
    ensures
        workflow_views(final(out)@) == workflow_views(old(out)@) + workflow_rows(files@, scope@),
{
    let ghost before = workflow_views(out@);
    let mut i: usize = 0;
    assert(files@.take(0) =~= Seq::empty());
    assert(before + Seq::<WorkflowView>::empty() =~= before);
    while i < files.len()
        invariant
            i <= files@.len(),
            workflow_views(out@) == before + workflow_rows(files@.take(i as int), scope@),
        decreases files@.len() - i,
    {
        let ghost prior = out@;
        assert(files@.take(i + 1).drop_last() =~= files@.take(i as int));
        if let Some(stem) = yaml_stem(files[i].name.as_str()) {
            let row = read_workflow(&files[i], stem.as_str(), scope);
            out.push(row);
            assert(workflow_views(out@) =~= workflow_views(prior).push(row@));
        }
        i += 1;
    }
    assert(files@.take(files@.len() as int) =~= files@);
}

// ── Both kinds, both scopes ─────────────────────────────────────────────────────────────

/// The names of the agents among the files `names`.
pub open spec fn agent_stems(names: Seq<Seq<char>>) -> Seq<Seq<char>>
    decreases names.len(),
{
    if names.len() == 0 {
        Seq::empty()
    } else {
        let head = agent_stems(names.drop_last());
        match paths::stem_with_extension(names.last(), "md"@) {
            Some(s) => head.push(s),
            None => head,
        }
    }
}

/// The agents that have a file in either scope.
pub open spec fn known_agents_of(home: CockpitFiles, project: Option<CockpitFiles>) -> Seq<Seq<char>> {
    agent_stems(seqs::views(home.agents@)) + (match project {
        Some(p) => agent_stems(seqs::views(p.agents@)),
        None => Seq::empty(),
    })
}

/// The roster rows of both scopes, the files of each in the order of their names.
pub open spec fn all_rosters(home: CockpitFiles, project: Option<CockpitFiles>) -> Seq<RosterView> {
    let known = known_agents_of(home, project);
    let dir = home.agents_dir@;
    roster_rows(sort::sorted(home.teams@, by_name()), "global"@, dir, known) + (match project {
        Some(p) => roster_rows(sort::sorted(p.teams@, by_name()), "project"@, dir, known),
        None => Seq::empty(),
    })
}

/// The workflow rows of both scopes, the files of each in the order of their names.
pub open spec fn all_workflows(home: CockpitFiles, project: Option<CockpitFiles>) -> Seq<WorkflowView> {
    workflow_rows(sort::sorted(home.workflows@, by_name()), "global"@) + (match project {
        Some(p) => workflow_rows(sort::sorted(p.workflows@, by_name()), "project"@),
        None => Seq::empty(),
    })
}

fn collect_agent_stems(names: &[String], set: &mut Vec<String>)
    ensures
        seqs::views(final(set)@) == seqs::views(old(set)@) + agent_stems(seqs::views(names@)),
{
    let ghost before = seqs::views(set@);
    let ghost all = seqs::views(names@);
    let mut i: usize = 0;
    assert(all.take(0) =~= Seq::empty());
    assert(before + Seq::<Seq<char>>::empty() =~= before);
    while i < names.len()
        invariant
            i <= names@.len(),
            all == seqs::views(names@),
            seqs::views(set@) == before + agent_stems(all.take(i as int)),
        decreases names@.len() - i,
    {
        let ghost prior = set@;
        proof {
            assert(all.take(i + 1).drop_last() =~= all.take(i as int));
            assert(all.take(i + 1).last() == names@[i as int]@);
        }
        if let Some(s) = paths::file_stem(names[i].as_str(), "md") {
            set.push(s);
            assert(seqs::views(set@) =~= seqs::views(prior).push(s@));
        }
        i += 1;
    }
    assert(all.take(names@.len() as int) =~= all);
}

fn yaml_files(files: Vec<ListedFile>) -> (r: Vec<ListedFile>)
    ensures
        r@ == sort::sorted(files@, by_name()),
{
    let le = |a: &ListedFile, b: &ListedFile| -> (o: bool)
        ensures
            o == seqs::text_le(a.name@, b.name@),
        {
            text::text_le(a.name.as_str(), b.name.as_str())
        };
    sort::sort_by(files, le, Ghost(by_name()))
}

/// All templates of a home directory and an optional project.
pub fn load_templates_at(home: CockpitFiles, project: Option<CockpitFiles>) -> (r: CockpitTemplates)
    ensures
        roster_views(r.teams@) == all_rosters(home, project),
        workflow_views(r.workflows@) == all_workflows(home, project),
{
    let mut known: Vec<String> = Vec::new();
    collect_agent_stems(&home.agents, &mut known);
    assert(seqs::views(known@) =~= agent_stems(seqs::views(home.agents@)));
    if let Some(p) = &project {
        collect_agent_stems(&p.agents, &mut known);
    }
    assert(seqs::views(known@) =~= known_agents_of(home, project));
    let mut teams: Vec<Roster> = Vec::new();
    let mut workflows: Vec<Workflow> = Vec::new();
    let home_teams = yaml_files(home.teams);
    let home_workflows = yaml_files(home.workflows);
    read_rosters(&home_teams, "global", home.agents_dir.as_str(), &known, &mut teams);
    read_workflows(&home_workflows, "global", &mut workflows);
    if let Some(p) = project {
        let own_teams = yaml_files(p.teams);
        let own_workflows = yaml_files(p.workflows);
        read_rosters(
            &own_teams,
            "project",
            home.agents_dir.as_str(),
            &known,
            &mut teams,
        );
        read_workflows(&own_workflows, "project", &mut workflows);
    }
    proof {
        assert(roster_views(teams@) =~= all_rosters(home, project));
        assert(workflow_views(workflows@) =~= all_workflows(home, project));
    }
    CockpitTemplates { teams, workflows }
}

// ── What holds of the templates ─────────────────────────────────────────────────────────
/// The file cannot be read, or its text is no YAML.
pub open spec fn is_broken(f: ListedFile) -> bool {
    match f.text {
        Err(_) => true,
        Ok(t) => yaml::yaml_of(t@) is Err,
    }
}

proof fn roster_rows_concat(
    a: Seq<ListedFile>,
    b: Seq<ListedFile>,
    scope: Seq<char>,
    dir: Seq<char>,
    known: Seq<Seq<char>>,
)
    ensures
        roster_rows(a + b, scope, dir, known) == roster_rows(a, scope, dir, known) + roster_rows(
            b,
            scope,
            dir,
            known,
        ),
    decreases b.len(),
{
    if b.len() == 0 {
        assert(a + b =~= a);
    } else {
        roster_rows_concat(a, b.drop_last(), scope, dir, known);
        assert((a + b).drop_last() =~= a + b.drop_last());
    }
}

proof fn workflow_rows_concat(a: Seq<ListedFile>, b: Seq<ListedFile>, scope: Seq<char>)
    ensures
        workflow_rows(a + b, scope) == workflow_rows(a, scope) + workflow_rows(b, scope),
    decreases b.len(),
{
    if b.len() == 0 {
        assert(a + b =~= a);
    } else {
        workflow_rows_concat(a, b.drop_last(), scope);
        assert((a + b).drop_last() =~= a + b.drop_last());
    }
}

/// A roster file that is broken costs one row that says so; the files before and after it
/// are listed all the same.
pub proof fn broken_roster_costs_one_row(
    a: Seq<ListedFile>,
    f: ListedFile,
    b: Seq<ListedFile>,
    scope: Seq<char>,
    dir: Seq<char>,
    known: Seq<Seq<char>>,
)
    requires
        yaml_stem_of(f.name@) is Some,
        is_broken(f),
    ensures
        ({
            let row = roster_row(f, yaml_stem_of(f.name@)->0, scope, dir, known);
            &&& row.parse_error is Some
            &&& roster_rows(a.push(f) + b, scope, dir, known) == roster_rows(
                a,
                scope,
                dir,
                known,
            ).push(row) + roster_rows(b, scope, dir, known)
        }),
{
    roster_rows_concat(a.push(f), b, scope, dir, known);
    assert(a.push(f).drop_last() =~= a);
}

/// The same holds of workflow files.
pub proof fn broken_workflow_costs_one_row(
    a: Seq<ListedFile>,
    f: ListedFile,
    b: Seq<ListedFile>,
    scope: Seq<char>,
)
    requires
        yaml_stem_of(f.name@) is Some,
        is_broken(f),
    ensures
        ({
            let row = workflow_row(f, yaml_stem_of(f.name@)->0, scope);
            &&& row.parse_error is Some
            &&& workflow_rows(a.push(f) + b, scope) == workflow_rows(a, scope).push(row)
                + workflow_rows(b, scope)
        }),
{
    workflow_rows_concat(a.push(f), b, scope);
    assert(a.push(f).drop_last() =~= a);
}

/// The scalar text of an entry, or `default` where there is none.
pub open spec fn text_or(map: Seq<(Seq<char>, YamlView)>, key: Seq<char>, default: Seq<char>) -> Seq<char> {
    match yaml::entry(map, key) {
        Some(YamlView::Scalar(s)) => s,
        _ => default,
    }
}

/// No entry of a mapping is a bare boolean under one of the keys that take a text.
pub open spec fn has_texts(map: Seq<(Seq<char>, YamlView)>, keys: Seq<Seq<char>>) -> bool {
    forall|i: int|
        0 <= i < keys.len() ==> !(yaml::entry(map, #[trigger] keys[i]) matches Some(
            YamlView::Bool(_),
        ))
}

/// A roster has a role for each mapping under `roles:`, in their order: under its key, with
/// the agent, the model and the mode that it names, `live` where it names none, and with a
/// worktree of its own exactly if it says `true`.
pub proof fn roles_are_read_in_order(
    entries: Seq<(Seq<char>, YamlView)>,
    maps: Seq<Seq<(Seq<char>, YamlView)>>,
    i: int,
)
    requires
        maps.len() == entries.len(),
        forall|k: int|
            0 <= k < entries.len() ==> (#[trigger] entries[k]).1 == YamlView::Mapping(maps[k]),
        0 <= i < entries.len(),
        has_texts(maps[i], seq!["agent"@, "model"@, "mode"@]),
    ensures
        roles_of(entries).len() == entries.len(),
        ({
            let r = roles_of(entries)[i];
            &&& r.role == entries[i].0
            &&& r.agent == text_or(maps[i], "agent"@, Seq::empty())
            &&& r.mode == text_or(maps[i], "mode"@, "live"@)
            &&& r.worktree == (yaml::entry(maps[i], "worktree"@) == Some(YamlView::Bool(true)))
            &&& (yaml::entry(maps[i], "model"@) matches Some(YamlView::Scalar(m)) ==> r.model == Some(
                m,
            ))
            &&& (yaml::entry(maps[i], "model"@) is None ==> r.model is None)
        }),
    decreases entries.len(),
{
    let keys = seq!["agent"@, "model"@, "mode"@];
    assert(keys[0] == "agent"@ && keys[1] == "model"@ && keys[2] == "mode"@);
    let head = entries.drop_last();
    assert(entries[entries.len() - 1].1 == YamlView::Mapping(maps[entries.len() - 1]));
    all_roles_are_read(head, maps.drop_last());
    if i < head.len() {
        assert forall|k: int| 0 <= k < head.len() implies (#[trigger] head[k]).1
            == YamlView::Mapping(maps.drop_last()[k]) by {
            assert(entries[k].1 == YamlView::Mapping(maps[k]));
        }
        assert(maps.drop_last()[i] == maps[i]);
        roles_are_read_in_order(head, maps.drop_last(), i);
    } else {
        assert forall|k: int| 0 <= k < head.len() implies (#[trigger] head[k]).1
            == YamlView::Mapping(maps.drop_last()[k]) by {
            assert(entries[k].1 == YamlView::Mapping(maps[k]));
        }
    }
}

proof fn all_roles_are_read(
    entries: Seq<(Seq<char>, YamlView)>,
    maps: Seq<Seq<(Seq<char>, YamlView)>>,
)
    ensures
        maps.len() == entries.len() && (forall|k: int|
            0 <= k < entries.len() ==> (#[trigger] entries[k]).1 == YamlView::Mapping(maps[k]))
            ==> roles_of(entries).len() == entries.len(),
    decreases entries.len(),
{
    if entries.len() > 0 && maps.len() == entries.len() && (forall|k: int|
        0 <= k < entries.len() ==> (#[trigger] entries[k]).1 == YamlView::Mapping(maps[k])) {
        let head = entries.drop_last();
        assert forall|k: int| 0 <= k < head.len() implies (#[trigger] head[k]).1
            == YamlView::Mapping(maps.drop_last()[k]) by {
            assert(entries[k].1 == YamlView::Mapping(maps[k]));
        }
        all_roles_are_read(head, maps.drop_last());
        assert(entries[entries.len() - 1].1 == YamlView::Mapping(maps[entries.len() - 1]));
    }
}

/// A role is right where its agent is known and its mode is `live` or `headless`; otherwise
/// there is a problem that names the role, and for an unknown agent the agent.
pub proof fn wrong_roles_are_problems(
    name: Seq<char>,
    map: Seq<(Seq<char>, YamlView)>,
    dir: Seq<char>,
    known: Seq<Seq<char>>,
)
    requires
        has_texts(map, seq!["agent"@, "mode"@]),
    ensures
        ({
            let agent = text_or(map, "agent"@, Seq::empty());
            let mode = text_or(map, "mode"@, "live"@);
            let problems = role_problems(name, YamlView::Mapping(map), dir, known);
            let agent_ok = agent.len() > 0 && known.contains(agent);
            let mode_ok = mode == "live"@ || mode == "headless"@;
            &&& problems.len() == (if agent_ok {
                0nat
            } else {
                1
            }) + (if mode_ok {
                0nat
            } else {
                1
            })
            &&& agent.len() == 0 ==> problems[0] == "role `"@ + name + "` has no `agent`"@
            &&& agent.len() > 0 && !known.contains(agent) ==> seqs::starts_with(
                problems[0],
                "role `"@ + name + "`: agent `"@ + agent + "` not found in "@ + dir,
            )
            &&& !mode_ok ==> problems.last() == "role `"@ + name + "`: mode `"@ + mode
                + "` not live|headless"@
        }),
{
    let keys = seq!["agent"@, "mode"@];
    assert(keys[0] == "agent"@ && keys[1] == "mode"@);
    let agent = text_or(map, "agent"@, Seq::empty());
    let mode = text_or(map, "mode"@, "live"@);
    assert(yaml::entry_str(map, "agent"@) matches Some(s) ==> s == agent);
    assert(yaml::entry_str(map, "mode"@) matches Some(s) ==> s == mode);
    let front = "role `"@ + name + "`: agent `"@ + agent + "` not found in "@ + dir;
    seqs::ends_of_concat(front, " (built-in?)"@);
    let problems = role_problems(name, YamlView::Mapping(map), dir, known);
    if agent.len() > 0 && !known.contains(agent) {
        assert(problems[0] == front + " (built-in?)"@);
    }
}

/// A workflow has a phase for each mapping under `phases:`, in their order: with its id, the
/// roles that it names, one by one, whether they work in parallel, and its gate.
pub proof fn phases_are_read_in_order(
    nodes: Seq<YamlView>,
    maps: Seq<Seq<(Seq<char>, YamlView)>>,
    i: int,
)
    requires
        maps.len() == nodes.len(),
        forall|k: int| 0 <= k < nodes.len() ==> #[trigger] nodes[k] == YamlView::Mapping(maps[k]),
        0 <= i < nodes.len(),
        has_texts(maps[i], seq!["id"@, "gate"@]),
    ensures
        phases_of(nodes).len() == nodes.len(),
        ({
            let p = phases_of(nodes)[i];
            &&& p.id == text_or(maps[i], "id"@, Seq::empty())
            &&& p.parallel == (yaml::entry(maps[i], "parallel"@) == Some(YamlView::Bool(true)))
            &&& (yaml::entry(maps[i], "gate"@) matches Some(YamlView::Scalar(g)) ==> p.gate == Some(
                g,
            ))
            &&& (yaml::entry(maps[i], "gate"@) is None ==> p.gate is None)
            &&& p.roles == phase_roles(maps[i])
        }),
    decreases nodes.len(),
{
    let keys = seq!["id"@, "gate"@];
    assert(keys[0] == "id"@ && keys[1] == "gate"@);
    let head = nodes.drop_last();
    assert(nodes[nodes.len() - 1] == YamlView::Mapping(maps[nodes.len() - 1]));
    assert forall|k: int| 0 <= k < head.len() implies #[trigger] head[k] == YamlView::Mapping(
        maps.drop_last()[k],
    ) by {
        assert(nodes[k] == YamlView::Mapping(maps[k]));
    }
    all_phases_are_read(head, maps.drop_last());
    if i < head.len() {
        assert(maps.drop_last()[i] == maps[i]);
        phases_are_read_in_order(head, maps.drop_last(), i);
    }
}

proof fn all_phases_are_read(nodes: Seq<YamlView>, maps: Seq<Seq<(Seq<char>, YamlView)>>)
    requires
        maps.len() == nodes.len(),
        forall|k: int| 0 <= k < nodes.len() ==> #[trigger] nodes[k] == YamlView::Mapping(maps[k]),
    ensures
        phases_of(nodes).len() == nodes.len(),
    decreases nodes.len(),
{
    if nodes.len() > 0 {
        let head = nodes.drop_last();
        assert forall|k: int| 0 <= k < head.len() implies #[trigger] head[k] == YamlView::Mapping(
            maps.drop_last()[k],
        ) by {
            assert(nodes[k] == YamlView::Mapping(maps[k]));
        }
        all_phases_are_read(head, maps.drop_last());
        assert(nodes[nodes.len() - 1] == YamlView::Mapping(maps[nodes.len() - 1]));
    }
}

/// A phase names the role under `role`, then those under `roles`: each text of a list in its
/// order, or the one text.
pub proof fn phases_name_their_roles(
    map: Seq<(Seq<char>, YamlView)>,
    role: Seq<char>,
    names: Seq<Seq<char>>,
)
    ensures
        ({
            let list = YamlView::Sequence(names.map_values(|n: Seq<char>| YamlView::Scalar(n)));
            let one = yaml::entry(map, "role"@);
            let many = yaml::entry(map, "roles"@);
            &&& one == Some(YamlView::Scalar(role)) && many is None ==> phase_roles(map) == seq![
                role,
            ]
            &&& one is None && many == Some(list) ==> phase_roles(map) == names
            &&& one == Some(YamlView::Scalar(role)) && many == Some(list) ==> phase_roles(map)
                == seq![role] + names
            &&& one is None && many == Some(YamlView::Scalar(role)) ==> phase_roles(map) == seq![
                role,
            ]
            &&& one is None && many is None ==> phase_roles(map).len() == 0
        }),
{
    let texts = names.map_values(|n: Seq<char>| YamlView::Scalar(n));
    texts_are_taken(names);
    let none = Seq::<Seq<char>>::empty();
    assert(none + names =~= names);
    assert(seq![role] + none =~= seq![role]);
    assert(none + seq![role] =~= seq![role]);
}

proof fn texts_are_taken(names: Seq<Seq<char>>)
    ensures
        scalar_texts(names.map_values(|n: Seq<char>| YamlView::Scalar(n))) == names,
    decreases names.len(),
{
    let f = |n: Seq<char>| YamlView::Scalar(n);
    let nodes = names.map_values(f);
    if names.len() > 0 {
        texts_are_taken(names.drop_last());
        assert(nodes.drop_last() =~= names.drop_last().map_values(f));
        assert(nodes.last() == YamlView::Scalar(names.last()));
    }
    assert(scalar_texts(nodes) =~= names);
}

/// A phase is right where it has an id, names a role, and has no gate but `user`; otherwise
/// there is a problem for each of these that fails.
pub proof fn wrong_phases_are_problems(i: nat, map: Seq<(Seq<char>, YamlView)>)
    requires
        has_texts(map, seq!["id"@, "gate"@]),
    ensures
        ({
            let id = text_or(map, "id"@, Seq::empty());
            let gate = text_or(map, "gate"@, "user"@);
            let problems = phase_problems(i, YamlView::Mapping(map));
            &&& problems.len() == (if id.len() == 0 {
                1nat
            } else {
                0
            }) + (if phase_roles(map).len() == 0 {
                1nat
            } else {
                0
            }) + (if gate != "user"@ {
                1nat
            } else {
                0
            })
            &&& id.len() == 0 ==> problems[0] == "phase #"@ + seqs::decimal(i + 1)
                + " has no `id`"@
            &&& gate != "user"@ ==> problems.last() == "phase `"@ + id + "`: gate `"@ + gate
                + "` not `user`"@
        }),
{
    let keys = seq!["id"@, "gate"@];
    assert(keys[0] == "id"@ && keys[1] == "gate"@);
    let id = text_or(map, "id"@, Seq::empty());
    assert(yaml::entry_str(map, "id"@) matches Some(s) ==> s == id);
}

/// A roster bears the name, the description and the directory that its file gives, and is
/// called `team:<scope>:<name>`; where the file gives no name, the name of the file.
pub proof fn rosters_bear_their_names(
    map: Seq<(Seq<char>, YamlView)>,
    scope: Seq<char>,
    stem: Seq<char>,
    path: Seq<char>,
    dir: Seq<char>,
    known: Seq<Seq<char>>,
)
    requires
        has_texts(map, seq!["name"@, "description"@, "default_cwd"@]),
    ensures
        ({
            let r = roster_of(
                YamlView::Mapping(map),
                scope,
                dir,
                known,
                blank_roster(scope, stem, path),
            );
            &&& r.name == text_or(map, "name"@, stem)
            &&& r.id == "team:"@ + scope + ":"@ + text_or(map, "name"@, stem)
            &&& r.scope == scope
            &&& r.path == path
            &&& r.description == text_or(map, "description"@, Seq::empty())
            &&& (yaml::entry(map, "default_cwd"@) matches Some(YamlView::Scalar(d)) ==> r.default_cwd
                == Some(d))
            &&& (yaml::entry(map, "default_cwd"@) is None ==> r.default_cwd is None)
            &&& r.parse_error is None
            &&& (yaml::entry(map, "roles"@) matches Some(YamlView::Mapping(e)) ==> r.roles
                == roles_of(e))
            &&& (yaml::entry(map, "roles"@) is None ==> r.roles.len() == 0 && r.problems == seq![
                "no `roles:` block"@,
            ])
        }),
{
    let keys = seq!["name"@, "description"@, "default_cwd"@];
    assert(keys[0] == "name"@ && keys[1] == "description"@ && keys[2] == "default_cwd"@);
    reveal_strlit("team:");
    reveal_strlit("team");
    reveal_strlit(":");
    let n = text_or(map, "name"@, stem);
    assert("team:"@ + scope + ":"@ + n =~= template_id("team"@, scope, n));
    assert("team:"@ + scope + ":"@ + stem =~= template_id("team"@, scope, stem));
    let none = Seq::<RoleView>::empty();
    assert(none + roster_roles(map) =~= roster_roles(map));
    let fine = Seq::<Seq<char>>::empty();
    assert(fine + roster_problems(map, dir, known) =~= roster_problems(map, dir, known));
}

/// A workflow bears the name, the description and the hint that its file gives, and is called
/// `workflow:<scope>:<name>`; where the file gives no name, the name of the file.
pub proof fn workflows_bear_their_names(
    map: Seq<(Seq<char>, YamlView)>,
    scope: Seq<char>,
    stem: Seq<char>,
    path: Seq<char>,
)
    requires
        has_texts(map, seq!["name"@, "description"@, "lead_hint"@]),
    ensures
        ({
            let w = workflow_of(
                YamlView::Mapping(map),
                scope,
                blank_workflow(scope, stem, path),
            );
            &&& w.name == text_or(map, "name"@, stem)
            &&& w.id == "workflow:"@ + scope + ":"@ + text_or(map, "name"@, stem)
            &&& w.scope == scope
            &&& w.path == path
            &&& w.description == text_or(map, "description"@, Seq::empty())
            &&& (yaml::entry(map, "lead_hint"@) matches Some(YamlView::Scalar(h)) ==> w.lead_hint
                == Some(h))
            &&& (yaml::entry(map, "lead_hint"@) is None ==> w.lead_hint is None)
            &&& w.parse_error is None
            &&& (yaml::entry(map, "phases"@) matches Some(YamlView::Sequence(nodes)) ==> w.phases
                == phases_of(nodes))
            &&& (yaml::entry(map, "phases"@) is None ==> w.phases.len() == 0 && w.problems == seq![
                "no `phases:` block"@,
            ])
        }),
{
    let keys = seq!["name"@, "description"@, "lead_hint"@];
    assert(keys[0] == "name"@ && keys[1] == "description"@ && keys[2] == "lead_hint"@);
    reveal_strlit("workflow:");
    reveal_strlit("workflow");
    reveal_strlit(":");
    let n = text_or(map, "name"@, stem);
    assert("workflow:"@ + scope + ":"@ + n =~= template_id("workflow"@, scope, n));
    assert("workflow:"@ + scope + ":"@ + stem =~= template_id("workflow"@, scope, stem));
    let none = Seq::<PhaseView>::empty();
    assert(none + workflow_phases(map) =~= workflow_phases(map));
    let fine = Seq::<Seq<char>>::empty();
    assert(fine + workflow_problems(map) =~= workflow_problems(map));
}

/// An agent is known exactly if it has a file `<agent>.md` in either scope.
pub proof fn agents_are_known_by_their_files(
    home: CockpitFiles,
    project: Option<CockpitFiles>,
    agent: Seq<char>,
)
    requires
        agent.len() > 0,
    ensures
        known_agents_of(home, project).contains(agent) <==> seqs::views(home.agents@).contains(
            agent + ".md"@,
        ) || (project matches Some(p) && seqs::views(p.agents@).contains(agent + ".md"@)),
{
    stems_are_of_files(seqs::views(home.agents@), agent);
    let a = agent_stems(seqs::views(home.agents@));
    let b = match project {
        Some(p) => agent_stems(seqs::views(p.agents@)),
        None => Seq::empty(),
    };
    if let Some(p) = project {
        stems_are_of_files(seqs::views(p.agents@), agent);
    }
    let all = known_agents_of(home, project);
    assert(all == a + b);
    if a.contains(agent) {
        let i = choose|i: int| 0 <= i < a.len() && a[i] == agent;
        assert(all[i] == agent);
    }
    if b.contains(agent) {
        let i = choose|i: int| 0 <= i < b.len() && b[i] == agent;
        assert(all[a.len() + i] == agent);
    }
    if all.contains(agent) {
        let i = choose|i: int| 0 <= i < all.len() && all[i] == agent;
        if i < a.len() {
            assert(a[i] == agent);
        } else {
            assert(b[i - a.len()] == agent);
        }
    }
}

proof fn stems_are_of_files(names: Seq<Seq<char>>, agent: Seq<char>)
    requires
        agent.len() > 0,
    ensures
        agent_stems(names).contains(agent) <==> names.contains(agent + ".md"@),
    decreases names.len(),
{
    if names.len() > 0 {
        let head = names.drop_last();
        let last = names.last();
        let a = agent_stems(head);
        let b = agent_stems(names);
        stems_are_of_files(head, agent);
        reveal_strlit(".md");
        reveal_strlit("md");
        assert(!"md"@.contains('.'));
        let file = agent + ".md"@;
        assert(file =~= agent + seq!['.'] + "md"@);
        paths::stems_are_what_stands_before_the_extension(agent, "md"@, "md"@);
        let dot = seqs::last_index_of(last, '.');
        seqs::last_index_of_bounds(last, '.');
        assert(paths::stem_with_extension(last, "md"@) == Some(agent) ==> last == file) by {
            if paths::stem_with_extension(last, "md"@) == Some(agent) {
                assert(last =~= last.take(dot) + seq!['.'] + last.skip(dot + 1));
            }
        }
        if a.contains(agent) {
            let i = choose|i: int| 0 <= i < a.len() && a[i] == agent;
            assert(b[i] == agent);
        }
        if last == file {
            assert(b[b.len() - 1] == agent);
            assert(names[names.len() - 1] == file);
        }
        if b.contains(agent) && !a.contains(agent) {
            let i = choose|i: int| 0 <= i < b.len() && b[i] == agent;
            if i < a.len() {
                assert(a[i] == agent);
            }
            assert(last == file);
        }
        if head.contains(file) {
            let i = choose|i: int| 0 <= i < head.len() && head[i] == file;
            assert(names[i] == file);
        }
        if names.contains(file) && last != file {
            let i = choose|i: int| 0 <= i < names.len() && names[i] == file;
            assert(head[i] == file);
        }
    }
}

/// Every YAML file among the teams of a scope has a row of that scope, and the rows of the
/// home directory stand before those of the project.
pub proof fn every_team_file_has_a_row(
    home: CockpitFiles,
    project: Option<CockpitFiles>,
    f: ListedFile,
    stem: Seq<char>,
)
    requires
        stem.len() > 0,
        f.name@ == stem + ".yaml"@ || f.name@ == stem + ".yml"@,
    ensures
        ({
            let known = known_agents_of(home, project);
            let dir = home.agents_dir@;
            &&& home.teams@.contains(f) ==> all_rosters(home, project).contains(
                roster_row(f, stem, "global"@, dir, known),
            )
            &&& (project matches Some(p) && p.teams@.contains(f) ==> all_rosters(
                home,
                project,
            ).contains(roster_row(f, stem, "project"@, dir, known)))
            &&& home.workflows@.contains(f) ==> all_workflows(home, project).contains(
                workflow_row(f, stem, "global"@),
            )
            &&& (project matches Some(p) && p.workflows@.contains(f) ==> all_workflows(
                home,
                project,
            ).contains(workflow_row(f, stem, "project"@)))
        }),
{
    yaml_names(f.name@, stem);
    let known = known_agents_of(home, project);
    let dir = home.agents_dir@;
    let gt = sort::sorted(home.teams@, by_name());
    let gw = sort::sorted(home.workflows@, by_name());
    sort::sorting_keeps_the_elements(home.teams@, by_name(), f);
    sort::sorting_keeps_the_elements(home.workflows@, by_name(), f);
    file_has_a_row(gt, f, stem, "global"@, dir, known);
    file_has_a_row(gw, f, stem, "global"@, dir, known);
    let a = roster_rows(gt, "global"@, dir, known);
    let c = workflow_rows(gw, "global"@);
    let (b, d) = match project {
        Some(p) => (
            roster_rows(sort::sorted(p.teams@, by_name()), "project"@, dir, known),
            workflow_rows(sort::sorted(p.workflows@, by_name()), "project"@),
        ),
        None => (Seq::empty(), Seq::empty()),
    };
    if let Some(p) = project {
        sort::sorting_keeps_the_elements(p.teams@, by_name(), f);
        sort::sorting_keeps_the_elements(p.workflows@, by_name(), f);
        file_has_a_row(sort::sorted(p.teams@, by_name()), f, stem, "project"@, dir, known);
        file_has_a_row(sort::sorted(p.workflows@, by_name()), f, stem, "project"@, dir, known);
    }
    both_hold(a, b, roster_row(f, stem, "global"@, dir, known));
    both_hold(a, b, roster_row(f, stem, "project"@, dir, known));
    both_hold(c, d, workflow_row(f, stem, "global"@));
    both_hold(c, d, workflow_row(f, stem, "project"@));
}

proof fn both_hold<T>(a: Seq<T>, b: Seq<T>, x: T)
    ensures
        a.contains(x) || b.contains(x) ==> (a + b).contains(x),
{
    if a.contains(x) {
        let i = choose|i: int| 0 <= i < a.len() && a[i] == x;
        assert((a + b)[i] == x);
    }
    if b.contains(x) {
        let i = choose|i: int| 0 <= i < b.len() && b[i] == x;
        assert((a + b)[a.len() + i] == x);
    }
}

proof fn yaml_names(name: Seq<char>, stem: Seq<char>)
    requires
        stem.len() > 0,
        name == stem + ".yaml"@ || name == stem + ".yml"@,
    ensures
        yaml_stem_of(name) == Some(stem),
{
    reveal_strlit(".yaml");
    reveal_strlit(".yml");
    reveal_strlit("yaml");
    reveal_strlit("yml");
    assert(!"yaml"@.contains('.') && !"yml"@.contains('.'));
    assert("yaml"@.len() != "yml"@.len());
    assert(stem + ".yaml"@ =~= stem + seq!['.'] + "yaml"@);
    assert(stem + ".yml"@ =~= stem + seq!['.'] + "yml"@);
    paths::stems_are_what_stands_before_the_extension(stem, "yaml"@, "yml"@);
    paths::stems_are_what_stands_before_the_extension(stem, "yml"@, "yaml"@);
}

proof fn file_has_a_row(
    files: Seq<ListedFile>,
    f: ListedFile,
    stem: Seq<char>,
    scope: Seq<char>,
    dir: Seq<char>,
    known: Seq<Seq<char>>,
)
    requires
        yaml_stem_of(f.name@) == Some(stem),
    ensures
        files.contains(f) ==> roster_rows(files, scope, dir, known).contains(
            roster_row(f, stem, scope, dir, known),
        ),
        files.contains(f) ==> workflow_rows(files, scope).contains(workflow_row(f, stem, scope)),
    decreases files.len(),
{
    if files.len() > 0 && files.contains(f) {
        let head = files.drop_last();
        let a = roster_rows(head, scope, dir, known);
        let b = roster_rows(files, scope, dir, known);
        let c = workflow_rows(head, scope);
        let d = workflow_rows(files, scope);
        file_has_a_row(head, f, stem, scope, dir, known);
        if files.last() == f {
            assert(b[b.len() - 1] == roster_row(f, stem, scope, dir, known));
            assert(d[d.len() - 1] == workflow_row(f, stem, scope));
        } else {
            let i = choose|i: int| 0 <= i < files.len() && files[i] == f;
            assert(head[i] == f);
            let k = choose|k: int|
                0 <= k < a.len() && a[k] == roster_row(f, stem, scope, dir, known);
            assert(b[k] == a[k]);
            let m = choose|m: int| 0 <= m < c.len() && c[m] == workflow_row(f, stem, scope);
            assert(d[m] == c[m]);
        }
    }
}

/// A roster has a problem for a role exactly if that role has one, and a workflow for a phase;
/// so neither has any where each part of it is right.
pub proof fn problems_are_those_of_the_parts(
    entries: YamlMap,
    nodes: Seq<YamlView>,
    dir: Seq<char>,
    known: Seq<Seq<char>>,
    i: int,
    p: Seq<char>,
)
    ensures
        0 <= i < entries.len() && role_problems(entries[i].0, entries[i].1, dir, known).contains(p)
            ==> all_role_problems(entries, dir, known).contains(p),
        (forall|k: int|
            0 <= k < entries.len() ==> role_problems(
                (#[trigger] entries[k]).0,
                entries[k].1,
                dir,
                known,
            ).len() == 0) ==> all_role_problems(entries, dir, known).len() == 0,
        0 <= i < nodes.len() && phase_problems(i as nat, nodes[i]).contains(p)
            ==> all_phase_problems(nodes).contains(p),
        (forall|k: int|
            0 <= k < nodes.len() ==> phase_problems(k as nat, #[trigger] nodes[k]).len() == 0)
            ==> all_phase_problems(nodes).len() == 0,
{
    role_problems_are_kept(entries, dir, known, i, p);
    phase_problems_are_kept(nodes, i, p);
}

proof fn role_problems_are_kept(
    entries: YamlMap,
    dir: Seq<char>,
    known: Seq<Seq<char>>,
    i: int,
    p: Seq<char>,
)
    ensures
        0 <= i < entries.len() && role_problems(entries[i].0, entries[i].1, dir, known).contains(p)
            ==> all_role_problems(entries, dir, known).contains(p),
        (forall|k: int|
            0 <= k < entries.len() ==> role_problems(
                (#[trigger] entries[k]).0,
                entries[k].1,
                dir,
                known,
            ).len() == 0) ==> all_role_problems(entries, dir, known).len() == 0,
    decreases entries.len(),
{
    if entries.len() > 0 {
        let head = entries.drop_last();
        let last = entries[entries.len() - 1];
        role_problems_are_kept(head, dir, known, i, p);
        both_hold(
            all_role_problems(head, dir, known),
            role_problems(last.0, last.1, dir, known),
            p,
        );
        assert forall|k: int| 0 <= k < head.len() implies head[k] == entries[k] by {}
        if 0 <= i < head.len() {
            assert(head[i] == entries[i]);
        }
    }
}

proof fn phase_problems_are_kept(nodes: Seq<YamlView>, i: int, p: Seq<char>)
    ensures
        0 <= i < nodes.len() && phase_problems(i as nat, nodes[i]).contains(p)
            ==> all_phase_problems(nodes).contains(p),
        (forall|k: int|
            0 <= k < nodes.len() ==> phase_problems(k as nat, #[trigger] nodes[k]).len() == 0)
            ==> all_phase_problems(nodes).len() == 0,
    decreases nodes.len(),
{
    if nodes.len() > 0 {
        let head = nodes.drop_last();
        let n = (nodes.len() - 1) as nat;
        phase_problems_are_kept(head, i, p);
        both_hold(all_phase_problems(head), phase_problems(n, nodes[n as int]), p);
        assert forall|k: int| 0 <= k < head.len() implies head[k] == nodes[k] by {}
        if 0 <= i < head.len() {
            assert(head[i] == nodes[i]);
        }
    }
}

/// A file that cannot be read, or does not parse, has a row all the same: under the name of
/// the file, with what is wrong, and without roles or phases.
pub proof fn broken_templates_are_listed(
    f: ListedFile,
    stem: Seq<char>,
    scope: Seq<char>,
    dir: Seq<char>,
    known: Seq<Seq<char>>,
    e: Seq<char>,
)
    ensures
        ({
            let r = roster_row(f, stem, scope, dir, known);
            let w = workflow_row(f, stem, scope);
            let unread = f.text matches Err(m) && m@ == e;
            let unparsed = f.text matches Ok(t) && yaml::yaml_of(t@) == Err::<YamlView, Seq<char>>(
                e,
            );
            &&& unread ==> r.parse_error == Some("read failed: "@ + e) && w.parse_error == Some(
                "read failed: "@ + e,
            )
            &&& unparsed ==> r.parse_error == Some("YAML parse error: "@ + e) && w.parse_error
                == Some("YAML parse error: "@ + e)
            &&& unread || unparsed ==> r.name == stem && r.scope == scope && r.path == f.path@
                && r.roles.len() == 0 && w.name == stem && w.scope == scope && w.path == f.path@
                && w.phases.len() == 0
        }),
{
}

} // verus!
