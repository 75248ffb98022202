//! Launching a team: a roster, a workflow and a task become one prompt for the lead.
use crate::seqs;
use crate::templates;
use crate::templates::CockpitFiles;
use crate::templates::PhaseSpec;
use crate::templates::PhaseView;
use crate::templates::RoleSpec;
use crate::templates::RoleView;
use crate::templates::Roster;
use crate::templates::RosterView;
use crate::templates::SpinupPreview;
use crate::templates::Workflow;
use crate::templates::WorkflowView;
use crate::text;
use vstd::prelude::*;

verus! {

// ── Which roles a workflow needs ────────────────────────────────────────────────────────

/// The texts of `roles` but the lead's.
pub open spec fn without_lead(roles: Seq<Seq<char>>) -> Seq<Seq<char>>
    decreases roles.len(),
{
    if roles.len() == 0 {
        Seq::empty()
    } else {
        let head = without_lead(roles.drop_last());
        if roles.last() == "lead"@ {
            head
        } else {
            head.push(roles.last())
        }
    }
}

/// The roles that the phases name, phase by phase.
pub open spec fn named_roles(phases: Seq<PhaseView>) -> Seq<Seq<char>>
    decreases phases.len(),
{
    if phases.len() == 0 {
        Seq::empty()
    } else {
        named_roles(phases.drop_last()) + without_lead(phases.last().roles)
    }
}

/// The roles that a workflow needs, each once, in the order in which they are first named.
/// The lead is none of them.
pub open spec fn needed_roles(phases: Seq<PhaseView>) -> Seq<Seq<char>> {
    seqs::distinct(named_roles(phases))
}

pub open spec fn has_role(roles: Seq<RoleView>, name: Seq<char>) -> bool {
    exists|i: int| 0 <= i < roles.len() && (#[trigger] roles[i]).role == name
}

/// A message for each of `names` that the roster lacks.
pub open spec fn missing_roles(roster: RosterView, names: Seq<Seq<char>>) -> Seq<Seq<char>>
    decreases names.len(),
{
    if names.len() == 0 {
        Seq::empty()
    } else {
        let head = missing_roles(roster, names.drop_last());
        if has_role(roster.roles, names.last()) {
            head
        } else {
            head.push(
                "workflow role `"@ + names.last() + "` is not in roster `"@ + roster.name + "`"@,
            )
        }
    }
}

/// The roles that a workflow needs, each once.
pub fn workflow_roles(w: &Workflow) -> (r: Vec<String>)
    ensures
        seqs::views(r@) == needed_roles(w@.phases),
{
    let ghost all = templates::phase_views(w.phases@);
    let mut named: Vec<String> = Vec::new();
    let mut i: usize = 0;
    assert(all.take(0) =~= Seq::empty());
    assert(seqs::views(named@) =~= Seq::empty());
    while i < w.phases.len()
        invariant
            i <= w.phases@.len(),
            all == templates::phase_views(w.phases@),
            seqs::views(named@) == named_roles(all.take(i as int)),
        decreases w.phases@.len() - i,
    {
        let roles = &w.phases[i].roles;
        let ghost names = seqs::views(roles@);
        let ghost before = seqs::views(named@);
        proof {
            assert(all.take(i + 1).drop_last() =~= all.take(i as int));
            assert(all.take(i + 1).last() == w.phases@[i as int]@);
            assert(names.take(0) =~= Seq::empty());
            assert(before + Seq::<Seq<char>>::empty() =~= before);
        }
        let mut j: usize = 0;
        while j < roles.len()
            invariant
                j <= roles@.len(),
                names == seqs::views(roles@),
                seqs::views(named@) == before + without_lead(names.take(j as int)),
            decreases roles@.len() - j,
        {
            let ghost prior = named@;
            proof {
                assert(names.take(j + 1).drop_last() =~= names.take(j as int));
                assert(names.take(j + 1).last() == roles@[j as int]@);
            }
            if !text::same(roles[j].as_str(), "lead") {
                named.push(roles[j].clone());
                assert(seqs::views(named@) =~= seqs::views(prior).push(roles@[j as int]@));
            }
            j += 1;
        }
        assert(names.take(roles@.len() as int) =~= names);
        i += 1;
    }
    assert(all.take(w.phases@.len() as int) =~= all);
    text::distinct(&named)
}

fn roster_has(roles: &[RoleSpec], name: &str) -> (r: bool)
    ensures
        r == has_role(templates::role_views(roles@), name@),
{
    let ghost all = templates::role_views(roles@);
    let mut i: usize = 0;
    while i < roles.len()
        invariant
            i <= roles@.len(),
            all == templates::role_views(roles@),
            forall|j: int| 0 <= j < i ==> (#[trigger] all[j]).role != name@,
        decreases roles@.len() - i,
    {
        assert(all[i as int] == roles@[i as int]@);
        if text::same(roles[i].role.as_str(), name) {
            return true;
        }
        i += 1;
    }
    false
}

/// A problem for each role of the workflow that the roster lacks; none where the two can be
/// launched together.
pub fn validate_roster_covers_workflow(r: &Roster, w: &Workflow) -> (problems: Vec<String>)
    ensures
        seqs::views(problems@) == missing_roles(r@, needed_roles(w@.phases)),
{
    let names = workflow_roles(w);
    let ghost all = seqs::views(names@);
    let mut out: Vec<String> = Vec::new();
    let mut i: usize = 0;
    assert(all.take(0) =~= Seq::empty());
    assert(seqs::views(out@) =~= Seq::empty());
    while i < names.len()
        invariant
            i <= names@.len(),
            all == seqs::views(names@),
            seqs::views(out@) == missing_roles(r@, all.take(i as int)),
        decreases names@.len() - i,
    {
        let ghost before = out@;
        let name = names[i].as_str();
        proof {
            assert(all.take(i + 1).drop_last() =~= all.take(i as int));
            assert(all.take(i + 1).last() == name@);
        }
        if !roster_has(&r.roles, name) {
            let mut m = "workflow role `".to_owned();
            m.append(name);
            m.append("` is not in roster `");
            m.append(r.name.as_str());
            m.append("`");
            out.push(m);
            assert(seqs::views(out@) =~= seqs::views(before).push(m@));
        }
        i += 1;
    }
    assert(all.take(names@.len() as int) =~= all);
    out
}

// ── The prompt ──────────────────────────────────────────────────────────────────────────

/// `s` on one line: its words, with one space between each two.
pub open spec fn flat(s: Seq<char>) -> Seq<char> {
    seqs::join(seqs::words(s), " "@)
}

pub open spec fn ends_sentence(s: Seq<char>) -> bool {
    s.len() > 0 && (s.last() == '.' || s.last() == '!' || s.last() == '?')
}

/// The workflow's hint to the lead, as a sentence and a space.
pub open spec fn hint_text(hint: Option<Seq<char>>) -> Seq<char> {
    match hint {
        None => Seq::empty(),
        Some(h) => {
            let f = flat(h);
            if f.len() == 0 {
                Seq::empty()
            } else if ends_sentence(f) {
                f + " "@
            } else {
                f + ". "@
            }
        },
    }
}

/// Each of the texts on one line.
pub open spec fn flats(ss: Seq<Seq<char>>) -> Seq<Seq<char>> {
    ss.map_values(|s: Seq<char>| flat(s))
}

/// How the prompt lists a role.
pub open spec fn role_text(r: RoleView) -> Seq<char> {
    flat(r.role) + " = "@ + flat(r.agent) + (match r.model {
        Some(m) => " (model "@ + flat(m) + ")"@,
        None => Seq::empty(),
    }) + (if r.worktree {
        " [own git worktree]"@
    } else {
        Seq::empty()
    }) + (if r.mode == "headless"@ {
        " [headless]"@
    } else {
        Seq::empty()
    })
}

/// How the prompt lists the phase at position `i`.
pub open spec fn phase_text(i: nat, p: PhaseView) -> Seq<char> {
    seqs::decimal(i + 1) + ") "@ + flat(p.id) + " — "@ + seqs::join(flats(p.roles), ", "@) + (
    if p.parallel {
        " [in parallel]"@
    } else {
        Seq::empty()
    }) + (if p.gate == Some("user"@) {
        " [STOP for my approval]"@
    } else {
        Seq::empty()
    })
}

pub open spec fn role_texts(roles: Seq<RoleView>) -> Seq<Seq<char>> {
    roles.map_values(|r: RoleView| role_text(r))
}

pub open spec fn phase_texts(phases: Seq<PhaseView>) -> Seq<Seq<char>> {
    Seq::new(phases.len(), |i: int| phase_text(i as nat, phases[i]))
}

/// The prompt for a roster, a workflow and a task. Every text that it copies is flattened, so
/// that the prompt is one line.
pub open spec fn prompt_of(r: RosterView, w: WorkflowView, task: Seq<char>) -> Seq<char> {
    "You are the team lead for the \""@ + flat(r.name) + "\" team. "@ + hint_text(w.lead_hint)
        + "Team roster: "@ + seqs::join(role_texts(r.roles), "; "@) + ". "@ + "Workflow phases: "@
        + seqs::join(phase_texts(w.phases), "; "@) + ". "@ + "Task: "@ + flat(task) + ". "@
        + "Spin up the live teammates now via the team feature, drive them through the phases over the file mailbox, and STOP at each approval gate to ask me before continuing."@
}

fn flatten(s: &str) -> (r: String)
    ensures
        r@ == flat(s@),
{
    text::join(&text::words(s), " ")
}

fn flatten_all(ss: &[String]) -> (r: Vec<String>)
    ensures
        seqs::views(r@) == flats(seqs::views(ss@)),
{
    let ghost want = flats(seqs::views(ss@));
    let mut out: Vec<String> = Vec::new();
    let mut i: usize = 0;
    while i < ss.len()
        invariant
            i <= ss@.len(),
            want == flats(seqs::views(ss@)),
            seqs::views(out@) == want.take(i as int),
        decreases ss@.len() - i,
    {
        let ghost before = out@;
        let t = flatten(ss[i].as_str());
        out.push(t);
        proof {
            assert(want[i as int] == t@);
            assert(seqs::views(out@) =~= seqs::views(before).push(t@));
            assert(want.take(i + 1) =~= want.take(i as int).push(want[i as int]));
        }
        i += 1;
    }
    assert(want.take(ss@.len() as int) =~= want);
    out
}

fn write_hint(hint: &Option<String>) -> (r: String)
    ensures
        r@ == hint_text(seqs::opt_view(*hint)),
{
    match hint {
        None => String::new(),
        Some(h) => {
            let mut f = flatten(h.as_str());
            let cs = text::chars_of(f.as_str());
            let n: usize = cs.len();
            if n == 0 {
                return String::new();
            }
            if cs[n - 1] == '.' || cs[n - 1] == '!' || cs[n - 1] == '?' {
                f.append(" ");
            } else {
                f.append(". ");
            }
            f
        },
    }
}

fn write_role(role: &RoleSpec) -> (r: String)
    ensures
        r@ == role_text(role@),
{
    let mut p = flatten(role.role.as_str());
    p.append(" = ");
    p.append(flatten(role.agent.as_str()).as_str());
    let ghost g1 = p@;
    if let Some(m) = &role.model {
        let mut note = " (model ".to_owned();
        note.append(flatten(m.as_str()).as_str());
        note.append(")");
        p.append(note.as_str());
    }
    assert(g1 + Seq::<char>::empty() =~= g1);
    let ghost g2 = p@;
    if role.worktree {
        p.append(" [own git worktree]");
    }
    assert(g2 + Seq::<char>::empty() =~= g2);
    let ghost g3 = p@;
    if text::same(role.mode.as_str(), "headless") {
        p.append(" [headless]");
    }
    assert(g3 + Seq::<char>::empty() =~= g3);
    p
}

fn write_phase(i: usize, ph: &PhaseSpec) -> (r: String)
    requires
        i < usize::MAX,
    ensures
        r@ == phase_text(i as nat, ph@),
{
    let mut p = text::decimal(i as u64 + 1);
    p.append(") ");
    p.append(flatten(ph.id.as_str()).as_str());
    p.append(" — ");
    p.append(text::join(&flatten_all(&ph.roles), ", ").as_str());
    let ghost g1 = p@;
    if ph.parallel {
        p.append(" [in parallel]");
    }
    assert(g1 + Seq::<char>::empty() =~= g1);
    let ghost g2 = p@;
    let stops = match &ph.gate {
        Some(g) => text::same(g.as_str(), "user"),
        None => false,
    };
    if stops {
        p.append(" [STOP for my approval]");
    }
    assert(g2 + Seq::<char>::empty() =~= g2);
    p
}

/// The prompt that the lead of a new team is given. It is one line, so that typing it into a
/// terminal submits nothing early.
pub fn generate_spinup_prompt(r: &Roster, w: &Workflow, task: &str) -> (prompt: String)
    ensures
        prompt@ == prompt_of(r@, w@, task@),
        !prompt@.contains('\n'),
        !prompt@.contains('\r'),
{
    let ghost want_roles = role_texts(r@.roles);
    let mut roles: Vec<String> = Vec::new();
    let mut i: usize = 0;
    while i < r.roles.len()
        invariant
            i <= r.roles@.len(),
            want_roles == role_texts(templates::role_views(r.roles@)),
            seqs::views(roles@) == want_roles.take(i as int),
        decreases r.roles@.len() - i,
    {
        let ghost before = roles@;
        let t = write_role(&r.roles[i]);
        roles.push(t);
        proof {
            assert(want_roles[i as int] == t@);
            assert(seqs::views(roles@) =~= seqs::views(before).push(t@));
            assert(want_roles.take(i + 1) =~= want_roles.take(i as int).push(want_roles[i as int]));
        }
        i += 1;
    }
    assert(want_roles.take(r.roles@.len() as int) =~= want_roles);
    let ghost want_phases = phase_texts(w@.phases);
    let mut phases: Vec<String> = Vec::new();
    let mut k: usize = 0;
    while k < w.phases.len()
        invariant
            k <= w.phases@.len(),
            want_phases == phase_texts(templates::phase_views(w.phases@)),
            seqs::views(phases@) == want_phases.take(k as int),
        decreases w.phases@.len() - k,
    {
        let ghost before = phases@;
        let t = write_phase(k, &w.phases[k]);
        phases.push(t);
        proof {
            assert(want_phases[k as int] == t@);
            assert(seqs::views(phases@) =~= seqs::views(before).push(t@));
            assert(want_phases.take(k + 1) =~= want_phases.take(k as int).push(
                want_phases[k as int],
            ));
        }
        k += 1;
    }
    assert(want_phases.take(w.phases@.len() as int) =~= want_phases);
    let mut s = "You are the team lead for the \"".to_owned();
    s.append(flatten(r.name.as_str()).as_str());
    s.append("\" team. ");
    s.append(write_hint(&w.lead_hint).as_str());
    s.append("Team roster: ");
    s.append(text::join(&roles, "; ").as_str());
    s.append(". ");
    s.append("Workflow phases: ");
    s.append(text::join(&phases, "; ").as_str());
    s.append(". ");
    s.append("Task: ");
    s.append(flatten(task).as_str());
    s.append(". ");
    s.append(
        "Spin up the live teammates now via the team feature, drive them through the phases over the file mailbox, and STOP at each approval gate to ask me before continuing.",
    );
    proof {
        prompt_is_one_line(r@, w@, task@, '\n');
        prompt_is_one_line(r@, w@, task@, '\r');
    }
    s
}

// ── The preview ─────────────────────────────────────────────────────────────────────────

pub open spec fn roster_with_id(rosters: Seq<RosterView>, id: Seq<char>) -> Option<RosterView>
    decreases rosters.len(),
{
    if rosters.len() == 0 {
        None
    } else if rosters[0].id == id {
        Some(rosters[0])
    } else {
        roster_with_id(rosters.drop_first(), id)
    }
}

pub open spec fn workflow_with_id(workflows: Seq<WorkflowView>, id: Seq<char>) -> Option<
    WorkflowView,
>
    decreases workflows.len(),
{
    if workflows.len() == 0 {
        None
    } else if workflows[0].id == id {
        Some(workflows[0])
    } else {
        workflow_with_id(workflows.drop_first(), id)
    }
}

/// The preview of a roster and a workflow.
pub open spec fn is_preview_of(p: SpinupPreview, r: RosterView, w: WorkflowView, task: Seq<char>) -> bool {
    &&& p.roster_name@ == r.name
    &&& p.workflow_name@ == w.name
    &&& p.prompt@ == prompt_of(r, w, task)
    &&& seqs::views(p.coverage_problems@) == missing_roles(r, needed_roles(w.phases))
}

fn find_roster<'a>(rosters: &'a [Roster], id: &str) -> (r: Option<&'a Roster>)
    ensures
        (match r {
            Some(x) => roster_with_id(templates::roster_views(rosters@), id@) == Some(x@),
            None => roster_with_id(templates::roster_views(rosters@), id@) is None,
        }),
{
    let ghost all = templates::roster_views(rosters@);
    let mut i: usize = 0;
    assert(all.skip(0) =~= all);
    while i < rosters.len()
        invariant
            i <= rosters@.len(),
            all == templates::roster_views(rosters@),
            roster_with_id(all, id@) == roster_with_id(all.skip(i as int), id@),
        decreases rosters@.len() - i,
    {
        assert(all.skip(i as int)[0] == rosters@[i as int]@);
        assert(all.skip(i as int).drop_first() =~= all.skip(i + 1));
        if text::same(rosters[i].id.as_str(), id) {
            return Some(&rosters[i]);
        }
        i += 1;
    }
    None
}

fn find_workflow<'a>(workflows: &'a [Workflow], id: &str) -> (r: Option<&'a Workflow>)
    ensures
        (match r {
            Some(x) => workflow_with_id(templates::workflow_views(workflows@), id@) == Some(x@),
            None => workflow_with_id(templates::workflow_views(workflows@), id@) is None,
        }),
{
    let ghost all = templates::workflow_views(workflows@);
    let mut i: usize = 0;
    assert(all.skip(0) =~= all);
    while i < workflows.len()
        invariant
            i <= workflows@.len(),
            all == templates::workflow_views(workflows@),
            workflow_with_id(all, id@) == workflow_with_id(all.skip(i as int), id@),
        decreases workflows@.len() - i,
    {
        assert(all.skip(i as int)[0] == workflows@[i as int]@);
        assert(all.skip(i as int).drop_first() =~= all.skip(i + 1));
        if text::same(workflows[i].id.as_str(), id) {
            return Some(&workflows[i]);
        }
        i += 1;
    }
    None
}

/// The preview of the roster and the workflow with the given ids.
pub fn spinup_preview_at(
    home: CockpitFiles,
    project: Option<CockpitFiles>,
    roster_id: &str,
    workflow_id: &str,
    task: &str,
) -> (r: Result<SpinupPreview, String>)
    ensures
        (match roster_with_id(templates::all_rosters(home, project), roster_id@) {
            None => r matches Err(e) && e@ == "roster `"@ + roster_id@ + "` not found"@,
            Some(roster) => match workflow_with_id(
                templates::all_workflows(home, project),
                workflow_id@,
            ) {
                None => r matches Err(e) && e@ == "workflow `"@ + workflow_id@ + "` not found"@,
                Some(workflow) => r matches Ok(p) && is_preview_of(p, roster, workflow, task@),
            },
        }),
{
    let t = templates::load_templates_at(home, project);
    let roster = match find_roster(&t.teams, roster_id) {
        Some(x) => x,
        None => {
            let mut e = "roster `".to_owned();
            e.append(roster_id);
            e.append("` not found");
            return Err(e);
        },
    };
    let workflow = match find_workflow(&t.workflows, workflow_id) {
        Some(x) => x,
        None => {
            let mut e = "workflow `".to_owned();
            e.append(workflow_id);
            e.append("` not found");
            return Err(e);
        },
    };
    Ok(
        SpinupPreview {
            roster_name: roster.name.clone(),
            workflow_name: workflow.name.clone(),
            prompt: generate_spinup_prompt(roster, workflow, task),
            coverage_problems: validate_roster_covers_workflow(roster, workflow),
        },
    )
}

// ── What holds of every launch ──────────────────────────────────────────────────────────

proof fn without_lead_holds(roles: Seq<Seq<char>>, x: Seq<char>)
    ensures
        without_lead(roles).contains(x) <==> roles.contains(x) && x != "lead"@,
    decreases roles.len(),
{
    if roles.len() > 0 {
        let head = roles.drop_last();
        without_lead_holds(head, x);
        if roles.contains(x) {
            let i = choose|i: int| 0 <= i < roles.len() && roles[i] == x;
            if i < head.len() {
                assert(head[i] == x);
                if x != "lead"@ {
                    let k = choose|k: int|
                        0 <= k < without_lead(head).len() && without_lead(head)[k] == x;
                    assert(without_lead(roles)[k] == x);
                }
            } else if x != "lead"@ {
                assert(without_lead(roles)[without_lead(head).len() as int] == x);
            }
        }
        if without_lead(roles).contains(x) {
            let k = choose|k: int| 0 <= k < without_lead(roles).len() && without_lead(roles)[k] == x;
            if k < without_lead(head).len() {
                assert(without_lead(head)[k] == x);
                let i = choose|i: int| 0 <= i < head.len() && head[i] == x;
                assert(roles[i] == x);
            } else {
                assert(roles[roles.len() - 1] == x);
            }
        }
    }
}

proof fn named_roles_hold(phases: Seq<PhaseView>, x: Seq<char>)
    ensures
        named_roles(phases).contains(x) <==> x != "lead"@ && exists|i: int|
            0 <= i < phases.len() && (#[trigger] phases[i]).roles.contains(x),
    decreases phases.len(),
{
    if phases.len() > 0 {
        let head = phases.drop_last();
        let a = named_roles(head);
        let b = without_lead(phases.last().roles);
        named_roles_hold(head, x);
        without_lead_holds(phases.last().roles, x);
        if (a + b).contains(x) {
            let k = choose|k: int| 0 <= k < (a + b).len() && (a + b)[k] == x;
            if k < a.len() {
                assert(a[k] == x);
                let i = choose|i: int|
                    0 <= i < head.len() && (#[trigger] head[i]).roles.contains(x);
                assert(phases[i] == head[i]);
            } else {
                assert(b[k - a.len()] == x);
                assert(phases[phases.len() - 1].roles.contains(x));
            }
        }
        if x != "lead"@ && exists|i: int|
            0 <= i < phases.len() && (#[trigger] phases[i]).roles.contains(x) {
            let i = choose|i: int| 0 <= i < phases.len() && (#[trigger] phases[i]).roles.contains(x);
            if i < head.len() {
                assert(head[i] == phases[i]);
                let k = choose|k: int| 0 <= k < a.len() && a[k] == x;
                assert((a + b)[k] == x);
            } else {
                let k = choose|k: int| 0 <= k < b.len() && b[k] == x;
                assert((a + b)[a.len() + k] == x);
            }
        }
    }
}

/// A workflow needs a role exactly if one of its phases names it and it is not the lead;
/// no role is listed twice.
pub proof fn needed_roles_are_exact(phases: Seq<PhaseView>, role: Seq<char>)
    ensures
        needed_roles(phases).no_duplicates(),
        !needed_roles(phases).contains("lead"@),
        needed_roles(phases).contains(role) <==> role != "lead"@ && exists|i: int|
            0 <= i < phases.len() && (#[trigger] phases[i]).roles.contains(role),
{
    let named = named_roles(phases);
    seqs::distinct_sound(named);
    named_roles_hold(phases, role);
    named_roles_hold(phases, "lead"@);
    assert(needed_roles(phases).contains(role) <==> named.contains(role));
    assert(needed_roles(phases).contains("lead"@) <==> named.contains("lead"@));
}

/// A roster and a workflow can be launched together, that is without problems, exactly if
/// the roster has every role that the workflow needs.
pub proof fn covered_iff_no_problems(roster: RosterView, names: Seq<Seq<char>>)
    ensures
        missing_roles(roster, names).len() == 0 <==> forall|i: int|
            0 <= i < names.len() ==> has_role(roster.roles, #[trigger] names[i]),
    decreases names.len(),
{
    if names.len() > 0 {
        let head = names.drop_last();
        covered_iff_no_problems(roster, head);
        if missing_roles(roster, names).len() == 0 {
            assert forall|i: int| 0 <= i < names.len() implies has_role(
                roster.roles,
                #[trigger] names[i],
            ) by {
                if i < head.len() {
                    assert(has_role(roster.roles, head[i]));
                }
            }
        }
        if forall|i: int| 0 <= i < names.len() ==> has_role(roster.roles, #[trigger] names[i]) {
            assert(has_role(roster.roles, names[names.len() - 1]));
            assert forall|i: int| 0 <= i < head.len() implies has_role(
                roster.roles,
                #[trigger] head[i],
            ) by {
                assert(head[i] == names[i]);
            }
        }
    }
}

/// Flattening leaves no white space but single spaces: no line break survives it.
pub proof fn flat_is_one_line(s: Seq<char>, c: char)
    requires
        seqs::is_white(c),
        c != ' ',
    ensures
        !flat(s).contains(c),
{
    let ws = seqs::words(s);
    seqs::words_hold_no_white(s);
    assert forall|i: int| 0 <= i < ws.len() implies !(#[trigger] ws[i]).contains(c) by {
        if ws[i].contains(c) {
            let j = choose|j: int| 0 <= j < ws[i].len() && ws[i][j] == c;
            assert(!seqs::is_white(ws[i][j]));
        }
    }
    reveal_strlit(" ");
    seqs::join_holds(ws, " "@, c);
}

proof fn decimal_holds_digits(n: nat, c: char)
    requires
        !seqs::is_digit(c),
    ensures
        !seqs::decimal(n).contains(c),
    decreases n,
{
    if n >= 10 {
        decimal_holds_digits(n / 10, c);
    }
}

proof fn role_text_holds(r: RoleView, c: char)
    requires
        c == '\n' || c == '\r',
    ensures
        !role_text(r).contains(c),
{
    reveal_strlit(" = ");
    reveal_strlit(" (model ");
    reveal_strlit(")");
    reveal_strlit(" [own git worktree]");
    reveal_strlit(" [headless]");
    let agent = flat(r.agent);
    let a = flat(r.role) + " = "@;
    flat_is_one_line(r.role, c);
    flat_is_one_line(r.agent, c);
    seqs::concat_holds(flat(r.role), " = "@, c);
    seqs::concat_holds(a, agent, c);
    let m = match r.model {
        Some(m) => " (model "@ + flat(m) + ")"@,
        None => Seq::empty(),
    };
    if let Some(x) = r.model {
        flat_is_one_line(x, c);
        seqs::concat_holds(" (model "@, flat(x), c);
        seqs::concat_holds(" (model "@ + flat(x), ")"@, c);
    }
    seqs::concat_holds(a + agent, m, c);
    let b = a + agent + m;
    let t = if r.worktree {
        " [own git worktree]"@
    } else {
        Seq::empty()
    };
    seqs::concat_holds(b, t, c);
    let h = if r.mode == "headless"@ {
        " [headless]"@
    } else {
        Seq::empty()
    };
    seqs::concat_holds(b + t, h, c);
}

proof fn phase_text_holds(i: nat, p: PhaseView, c: char)
    requires
        c == '\n' || c == '\r',
    ensures
        !phase_text(i, p).contains(c),
{
    reveal_strlit(") ");
    reveal_strlit(" — ");
    reveal_strlit(", ");
    reveal_strlit(" [in parallel]");
    reveal_strlit(" [STOP for my approval]");
    decimal_holds_digits(i + 1, c);
    flat_is_one_line(p.id, c);
    let roles = flats(p.roles);
    assert forall|k: int| 0 <= k < roles.len() implies !(#[trigger] roles[k]).contains(c) by {
        flat_is_one_line(p.roles[k], c);
    }
    seqs::join_holds(roles, ", "@, c);
    let d = seqs::decimal(i + 1);
    let id = flat(p.id);
    let j = seqs::join(roles, ", "@);
    seqs::concat_holds(d, ") "@, c);
    seqs::concat_holds(d + ") "@, id, c);
    seqs::concat_holds(d + ") "@ + id, " — "@, c);
    seqs::concat_holds(d + ") "@ + id + " — "@, j, c);
    let b = d + ") "@ + id + " — "@ + j;
    let t = if p.parallel {
        " [in parallel]"@
    } else {
        Seq::empty()
    };
    seqs::concat_holds(b, t, c);
    let g = if p.gate == Some("user"@) {
        " [STOP for my approval]"@
    } else {
        Seq::empty()
    };
    seqs::concat_holds(b + t, g, c);
}

proof fn fixed_texts_hold(c: char)
    requires
        c == '\n' || c == '\r',
    ensures
        !"You are the team lead for the \""@.contains(c),
        !"\" team. "@.contains(c),
        !"Team roster: "@.contains(c),
        !"; "@.contains(c),
        !". "@.contains(c),
        !" "@.contains(c),
        !"Workflow phases: "@.contains(c),
        !"Task: "@.contains(c),
{
    reveal_strlit("You are the team lead for the \"");
    reveal_strlit("\" team. ");
    reveal_strlit("Team roster: ");
    reveal_strlit("; ");
    reveal_strlit(". ");
    reveal_strlit(" ");
    reveal_strlit("Workflow phases: ");
    reveal_strlit("Task: ");
}

#[verifier::rlimit(60)]
proof fn closing_holds(c: char)
    requires
        c == '\n' || c == '\r',
    ensures
        !"Spin up the live teammates now via the team feature, drive them through the phases over the file mailbox, and STOP at each approval gate to ask me before continuing."@.contains(
            c,
        ),
{
    reveal_strlit(
        "Spin up the live teammates now via the team feature, drive them through the phases over the file mailbox, and STOP at each approval gate to ask me before continuing.",
    );
}

/// The prompt is a single line, whatever line breaks the roster, the workflow and the task
/// hold: typing it into a terminal submits nothing early.
pub proof fn prompt_is_one_line(r: RosterView, w: WorkflowView, task: Seq<char>, c: char)
    requires
        c == '\n' || c == '\r',
    ensures
        !prompt_of(r, w, task).contains(c),
{
    fixed_texts_hold(c);
    closing_holds(c);
    let roles = role_texts(r.roles);
    assert forall|i: int| 0 <= i < roles.len() implies !(#[trigger] roles[i]).contains(c) by {
        role_text_holds(r.roles[i], c);
    }
    let phases = phase_texts(w.phases);
    assert forall|i: int| 0 <= i < phases.len() implies !(#[trigger] phases[i]).contains(c) by {
        phase_text_holds(i as nat, w.phases[i], c);
    }
    seqs::join_holds(roles, "; "@, c);
    seqs::join_holds(phases, "; "@, c);
    flat_is_one_line(task, c);
    flat_is_one_line(r.name, c);
    let hint = hint_text(w.lead_hint);
    if let Some(h) = w.lead_hint {
        flat_is_one_line(h, c);
        seqs::concat_holds(flat(h), " "@, c);
        seqs::concat_holds(flat(h), ". "@, c);
    }
    let s1 = "You are the team lead for the \""@;
    seqs::concat_holds(s1, flat(r.name), c);
    let s2 = s1 + flat(r.name);
    seqs::concat_holds(s2, "\" team. "@, c);
    let s3 = s2 + "\" team. "@;
    seqs::concat_holds(s3, hint, c);
    let s4 = s3 + hint;
    seqs::concat_holds(s4, "Team roster: "@, c);
    let s5 = s4 + "Team roster: "@;
    seqs::concat_holds(s5, seqs::join(roles, "; "@), c);
    let s6 = s5 + seqs::join(roles, "; "@);
    seqs::concat_holds(s6, ". "@, c);
    let s7 = s6 + ". "@;
    seqs::concat_holds(s7, "Workflow phases: "@, c);
    let s8 = s7 + "Workflow phases: "@;
    seqs::concat_holds(s8, seqs::join(phases, "; "@), c);
    let s9 = s8 + seqs::join(phases, "; "@);
    seqs::concat_holds(s9, ". "@, c);
    let s10 = s9 + ". "@;
    seqs::concat_holds(s10, "Task: "@, c);
    let s11 = s10 + "Task: "@;
    seqs::concat_holds(s11, flat(task), c);
    let s12 = s11 + flat(task);
    seqs::concat_holds(s12, ". "@, c);
    seqs::concat_holds(
        s12 + ". "@,
        "Spin up the live teammates now via the team feature, drive them through the phases over the file mailbox, and STOP at each approval gate to ask me before continuing."@,
        c,
    );
}

/// Flattening loses no word and adds none.
pub proof fn flattening_keeps_the_words(s: Seq<char>)
    ensures
        seqs::words(flat(s)) == seqs::words(s),
{
    seqs::words_are_words(s);
    reveal_strlit(" ");
    assert(" "@ =~= seq![' ']);
    seqs::words_undo_join(seqs::words(s));
}

/// How a prompt is made up: the name of the team, what the hint says, the listed roles, the
/// listed phases, the task, and what the lead is to do.
pub open spec fn is_made_of(
    prompt: Seq<char>,
    name: Seq<char>,
    hint: Seq<char>,
    roles: Seq<Seq<char>>,
    phases: Seq<Seq<char>>,
    task: Seq<char>,
) -> bool {
    prompt == "You are the team lead for the \""@ + flat(name) + "\" team. "@ + hint
        + "Team roster: "@ + seqs::join(roles, "; "@) + ". "@ + "Workflow phases: "@ + seqs::join(
        phases,
        "; "@,
    ) + ". "@ + "Task: "@ + flat(task) + ". "@
        + "Spin up the live teammates now via the team feature, drive them through the phases over the file mailbox, and STOP at each approval gate to ask me before continuing."@
}

/// `item` lists the role `r`: its name and its agent; then the model where there is one, the
/// worktree where it has one of its own, and that it is headless where it is.
pub open spec fn lists_role(item: Seq<char>, r: RoleView) -> bool {
    exists|model: Seq<char>, tree: Seq<char>, mode: Seq<char>|
        {
            &&& item == flat(r.role) + " = "@ + flat(r.agent) + #[trigger] (model + tree + mode)
            &&& (r.model is None ==> model.len() == 0)
            &&& (r.model matches Some(m) ==> model == " (model "@ + flat(m) + ")"@)
            &&& (r.worktree ==> tree == " [own git worktree]"@)
            &&& (!r.worktree ==> tree.len() == 0)
            &&& (r.mode == "headless"@ ==> mode == " [headless]"@)
            &&& (r.mode != "headless"@ ==> mode.len() == 0)
        }
}

/// `item` lists the phase `p` under the number `n`: its id and its roles, in their order; then
/// that they work in parallel where they do, and that the lead stops for approval where the
/// gate is the user.
pub open spec fn lists_phase(item: Seq<char>, n: nat, p: PhaseView) -> bool {
    exists|roles: Seq<Seq<char>>, together: Seq<char>, stop: Seq<char>|
        {
            &&& item == seqs::decimal(n) + ") "@ + flat(p.id) + " — "@ + #[trigger] seqs::join(
                roles,
                ", "@,
            ) + #[trigger] (together + stop)
            &&& roles.len() == p.roles.len()
            &&& (forall|k: int| 0 <= k < roles.len() ==> #[trigger] roles[k] == flat(p.roles[k]))
            &&& (p.parallel ==> together == " [in parallel]"@)
            &&& (!p.parallel ==> together.len() == 0)
            &&& (p.gate == Some("user"@) ==> stop == " [STOP for my approval]"@)
            &&& (p.gate != Some("user"@) ==> stop.len() == 0)
        }
}

/// The prompt lists every role of the roster and every phase of the workflow, each in its
/// place: the phases bear the numbers from 1 on in the order of the workflow.
pub proof fn prompt_lists_roles_and_phases(r: RosterView, w: WorkflowView, task: Seq<char>) -> (l: (
    Seq<Seq<char>>,
    Seq<Seq<char>>,
))
    ensures
        is_made_of(prompt_of(r, w, task), r.name, hint_text(w.lead_hint), l.0, l.1, task),
        l.0.len() == r.roles.len(),
        forall|i: int| 0 <= i < r.roles.len() ==> lists_role(#[trigger] l.0[i], r.roles[i]),
        l.1.len() == w.phases.len(),
        forall|i: int|
            0 <= i < w.phases.len() ==> lists_phase(
                #[trigger] l.1[i],
                (i + 1) as nat,
                w.phases[i],
            ),
{
    let roles = role_texts(r.roles);
    let phases = phase_texts(w.phases);
    assert forall|i: int| 0 <= i < r.roles.len() implies lists_role(
        #[trigger] roles[i],
        r.roles[i],
    ) by {
        let x = r.roles[i];
        let model = match x.model {
            Some(m) => " (model "@ + flat(m) + ")"@,
            None => Seq::empty(),
        };
        let tree = if x.worktree {
            " [own git worktree]"@
        } else {
            Seq::empty()
        };
        let mode = if x.mode == "headless"@ {
            " [headless]"@
        } else {
            Seq::empty()
        };
        let front = flat(x.role) + " = "@ + flat(x.agent);
        assert(role_text(x) == front + model + tree + mode);
        assert(front + model + tree + mode =~= front + (model + tree + mode));
    }
    assert forall|i: int| 0 <= i < w.phases.len() implies lists_phase(
        #[trigger] phases[i],
        (i + 1) as nat,
        w.phases[i],
    ) by {
        let p = w.phases[i];
        let names = flats(p.roles);
        let together = if p.parallel {
            " [in parallel]"@
        } else {
            Seq::empty()
        };
        let stop = if p.gate == Some("user"@) {
            " [STOP for my approval]"@
        } else {
            Seq::empty()
        };
        let front = seqs::decimal((i + 1) as nat) + ") "@ + flat(p.id) + " — "@ + seqs::join(
            names,
            ", "@,
        );
        assert(phase_text(i as nat, p) == front + together + stop);
        assert(front + together + stop =~= front + (together + stop));
    }
    (roles, phases)
}

/// Of two phases of the workflow the earlier one stands before the later one in the prompt,
/// each with its number and its id.
pub proof fn phases_stand_in_order(r: RosterView, w: WorkflowView, task: Seq<char>, i: int, j: int) -> (parts: (
    Seq<char>,
    Seq<char>,
    Seq<char>,
))
    requires
        0 <= i < j < w.phases.len(),
    ensures
        prompt_of(r, w, task) == parts.0 + (seqs::decimal((i + 1) as nat) + ") "@ + flat(
            w.phases[i].id,
        ) + " — "@) + parts.1 + (seqs::decimal((j + 1) as nat) + ") "@ + flat(w.phases[j].id)
            + " — "@) + parts.2,
{
    let items = phase_texts(w.phases);
    let (a, b, c) = seqs::join_in_order(items, "; "@, i, j);
    let head_i = seqs::decimal((i + 1) as nat) + ") "@ + flat(w.phases[i].id) + " — "@;
    let head_j = seqs::decimal((j + 1) as nat) + ") "@ + flat(w.phases[j].id) + " — "@;
    phase_begins(i as nat, w.phases[i]);
    phase_begins(j as nat, w.phases[j]);
    let front = "You are the team lead for the \""@ + flat(r.name) + "\" team. "@ + hint_text(
        w.lead_hint,
    ) + "Team roster: "@ + seqs::join(role_texts(r.roles), "; "@) + ". "@ + "Workflow phases: "@;
    let t = flat(task);
    let closing = "Spin up the live teammates now via the team feature, drive them through the phases over the file mailbox, and STOP at each approval gate to ask me before continuing."@;
    let joined = seqs::join(items, "; "@);
    ends_regroup(front + joined, ". "@, "Task: "@, t, ". "@, closing);
    let back = ". "@ + "Task: "@ + t + ". "@ + closing;
    assert(prompt_of(r, w, task) == front + joined + back);
    middle_regroup(front, a, items[i], head_i, b, items[j], head_j, c, back);
    (front + a, items[i].skip(head_i.len() as int) + b, items[j].skip(head_j.len() as int) + c
        + back)
}

proof fn ends_regroup(
    x: Seq<char>,
    a: Seq<char>,
    b: Seq<char>,
    c: Seq<char>,
    d: Seq<char>,
    e: Seq<char>,
)
    ensures
        x + a + b + c + d + e == x + (a + b + c + d + e),
{
    assert(x + a + b + c + d + e =~= x + (a + b + c + d + e));
}

proof fn middle_regroup(
    front: Seq<char>,
    a: Seq<char>,
    p: Seq<char>,
    head_p: Seq<char>,
    b: Seq<char>,
    q: Seq<char>,
    head_q: Seq<char>,
    c: Seq<char>,
    back: Seq<char>,
)
    requires
        seqs::starts_with(p, head_p),
        seqs::starts_with(q, head_q),
    ensures
        front + (a + p + b + q + c) + back == front + a + head_p + (p.skip(head_p.len() as int) + b)
            + head_q + (q.skip(head_q.len() as int) + c + back),
{
    let tp = p.skip(head_p.len() as int);
    let tq = q.skip(head_q.len() as int);
    assert(p =~= head_p + tp);
    assert(q =~= head_q + tq);
    assert(front + (a + (head_p + tp) + b + (head_q + tq) + c) + back =~= front + a + head_p + (tp
        + b) + head_q + (tq + c + back));
}

proof fn phase_begins(i: nat, p: PhaseView)
    ensures
        seqs::starts_with(
            phase_text(i, p),
            seqs::decimal(i + 1) + ") "@ + flat(p.id) + " — "@,
        ),
{
    let head = seqs::decimal(i + 1) + ") "@ + flat(p.id) + " — "@;
    assert(phase_text(i, p).take(head.len() as int) =~= head);
}

/// The hint to the lead stands in the prompt as a sentence: with a full stop where it ends in
/// none of `.`, `!` and `?`; and nothing stands for a hint without words.
pub proof fn hint_is_a_sentence(h: Seq<char>)
    ensures
        hint_text(None).len() == 0,
        seqs::words(h).len() == 0 ==> hint_text(Some(h)).len() == 0,
        seqs::words(h).len() > 0 ==> seqs::starts_with(hint_text(Some(h)), flat(h)) && hint_text(
            Some(h),
        ).last() == ' ' && ({
            let stop = hint_text(Some(h))[hint_text(Some(h)).len() - 2];
            stop == '.' || stop == '!' || stop == '?'
        }),
        seqs::words(h).len() > 0 && (flat(h).last() == '.' || flat(h).last() == '!' || flat(
            h,
        ).last() == '?') ==> hint_text(Some(h)) == flat(h).push(' '),
        seqs::words(h).len() > 0 && flat(h).last() != '.' && flat(h).last() != '!' && flat(h).last()
            != '?' ==> hint_text(Some(h)) == flat(h).push('.').push(' '),
{
    reveal_strlit(" ");
    reveal_strlit(". ");
    let ws = seqs::words(h);
    seqs::words_are_words(h);
    if ws.len() > 0 {
        seqs::join_parts(ws, " "@, 0);
        assert(seqs::is_word(ws[0]));
        assert(flat(h).len() > 0);
        assert(flat(h) + " "@ =~= flat(h).push(' '));
        assert(flat(h) + ". "@ =~= flat(h).push('.').push(' '));
        assert(hint_text(Some(h)).take(flat(h).len() as int) =~= flat(h));
    } else {
        assert(flat(h) =~= Seq::empty());
    }
}

/// The problem that a missing role is.
pub open spec fn problem_text(role: Seq<char>, roster: Seq<char>) -> Seq<char> {
    "workflow role `"@ + role + "` is not in roster `"@ + roster + "`"@
}

/// There is a problem for each role that is needed and that no role of the roster has, and
/// for no other.
pub proof fn problems_name_what_is_missing(roster: RosterView, names: Seq<Seq<char>>, role: Seq<char>)
    ensures
        missing_roles(roster, names).contains(problem_text(role, roster.name)) <==> names.contains(
            role,
        ) && forall|i: int| 0 <= i < roster.roles.len() ==> (#[trigger] roster.roles[i]).role != role,
    decreases names.len(),
{
    if names.len() > 0 {
        let head = names.drop_last();
        let last = names.last();
        let a = missing_roles(roster, head);
        let b = missing_roles(roster, names);
        let want = problem_text(role, roster.name);
        problems_name_what_is_missing(roster, head, role);
        assert(problem_text(last, roster.name) == want ==> last == role) by {
            let p = "workflow role `"@;
            let q = "` is not in roster `"@ + roster.name + "`"@;
            assert(want =~= p + role + q);
            assert(problem_text(last, roster.name) =~= p + last + q);
            if problem_text(last, roster.name) == want {
                assert(last.len() == role.len());
                assert(want.subrange(p.len() as int, (p.len() + role.len()) as int) =~= role);
                assert(want.subrange(p.len() as int, (p.len() + role.len()) as int) =~= last);
            }
        }
        assert(names.contains(role) <==> head.contains(role) || last == role) by {
            if head.contains(role) {
                let i = choose|i: int| 0 <= i < head.len() && head[i] == role;
                assert(names[i] == role);
            }
            if last == role {
                assert(names[names.len() - 1] == role);
            }
            if names.contains(role) && last != role {
                let i = choose|i: int| 0 <= i < names.len() && names[i] == role;
                assert(head[i] == role);
            }
        }
        if a.contains(want) {
            let i = choose|i: int| 0 <= i < a.len() && a[i] == want;
            assert(b[i] == want);
        }
        if !has_role(roster.roles, last) && last == role {
            assert(b[b.len() - 1] == want);
        }
        if b.contains(want) {
            let i = choose|i: int| 0 <= i < b.len() && b[i] == want;
            if i < a.len() {
                assert(a[i] == want);
            }
        }
    }
}

/// A template is found by its id: the first that has it, and none only where none has it.
pub proof fn templates_are_found_by_id(
    rosters: Seq<RosterView>,
    workflows: Seq<WorkflowView>,
    id: Seq<char>,
)
    ensures
        roster_with_id(rosters, id) is None <==> forall|i: int|
            0 <= i < rosters.len() ==> (#[trigger] rosters[i]).id != id,
        roster_with_id(rosters, id) matches Some(x) ==> x.id == id && exists|i: int|
            0 <= i < rosters.len() && #[trigger] rosters[i] == x && forall|j: int|
                0 <= j < i ==> (#[trigger] rosters[j]).id != id,
        workflow_with_id(workflows, id) is None <==> forall|i: int|
            0 <= i < workflows.len() ==> (#[trigger] workflows[i]).id != id,
        workflow_with_id(workflows, id) matches Some(x) ==> x.id == id && exists|i: int|
            0 <= i < workflows.len() && #[trigger] workflows[i] == x && forall|j: int|
                0 <= j < i ==> (#[trigger] workflows[j]).id != id,
{
    roster_is_found(rosters, id);
    workflow_is_found(workflows, id);
}

proof fn roster_is_found(rosters: Seq<RosterView>, id: Seq<char>)
    ensures
        roster_with_id(rosters, id) is None <==> forall|i: int|
            0 <= i < rosters.len() ==> (#[trigger] rosters[i]).id != id,
        roster_with_id(rosters, id) matches Some(x) ==> x.id == id && exists|i: int|
            0 <= i < rosters.len() && #[trigger] rosters[i] == x && forall|j: int|
                0 <= j < i ==> (#[trigger] rosters[j]).id != id,
    decreases rosters.len(),
{
    if rosters.len() > 0 && rosters[0].id != id {
        let rest = rosters.drop_first();
        roster_is_found(rest, id);
        if let Some(x) = roster_with_id(rest, id) {
            let i = choose|i: int|
                0 <= i < rest.len() && #[trigger] rest[i] == x && forall|j: int|
                    0 <= j < i ==> (#[trigger] rest[j]).id != id;
            assert(rosters[i + 1] == x);
            assert forall|j: int| 0 <= j < i + 1 implies (#[trigger] rosters[j]).id != id by {
                if j > 0 {
                    assert(rosters[j] == rest[j - 1]);
                }
            }
        } else {
            assert forall|i: int| 0 <= i < rosters.len() implies (#[trigger] rosters[i]).id != id by {
                if i > 0 {
                    assert(rosters[i] == rest[i - 1]);
                }
            }
        }
    }
}

proof fn workflow_is_found(workflows: Seq<WorkflowView>, id: Seq<char>)
    ensures
        workflow_with_id(workflows, id) is None <==> forall|i: int|
            0 <= i < workflows.len() ==> (#[trigger] workflows[i]).id != id,
        workflow_with_id(workflows, id) matches Some(x) ==> x.id == id && exists|i: int|
            0 <= i < workflows.len() && #[trigger] workflows[i] == x && forall|j: int|
                0 <= j < i ==> (#[trigger] workflows[j]).id != id,
    decreases workflows.len(),
{
    if workflows.len() > 0 && workflows[0].id != id {
        let rest = workflows.drop_first();
        workflow_is_found(rest, id);
        if let Some(x) = workflow_with_id(rest, id) {
            let i = choose|i: int|
                0 <= i < rest.len() && #[trigger] rest[i] == x && forall|j: int|
                    0 <= j < i ==> (#[trigger] rest[j]).id != id;
            assert(workflows[i + 1] == x);
            assert forall|j: int| 0 <= j < i + 1 implies (#[trigger] workflows[j]).id != id by {
                if j > 0 {
                    assert(workflows[j] == rest[j - 1]);
                }
            }
        } else {
            assert forall|i: int| 0 <= i < workflows.len() implies (#[trigger] workflows[i]).id
                != id by {
                if i > 0 {
                    assert(workflows[i] == rest[i - 1]);
                }
            }
        }
    }
}

} // verus!
